//! The catalog codec: the on-disk table of books and back.
//!
//! A catalog is a header line followed by one line per book. Every field is
//! left-aligned, padded with spaces to its column's width and followed by the
//! delimiter `"  /"`, the last field included. On reading, blank lines and
//! lines that begin with `#` are ignored, fields are trimmed, and a number
//! that does not parse falls back to a sentinel instead of failing.

use vstd::prelude::*;
use vstd::string::StrSliceExecFns;
use crate::book::{read_marker, views, Book, BookView};
use crate::split::{
    delim, field_ranges, lemma_split_lines_nonempty, line_ranges, no_delim, range_texts,
    ranges_within, split_delim, split_lines,
};
use crate::text::{
    chars_of, decimal, parse_unsigned, parse_unsigned_range, render_decimal, string_of, trim,
    texts, trim_bounds, trim_end, trim_end_len,
};

verus! {

/// The timestamp given to a record whose date field does not parse.
pub const NO_DATE: u32 = 999_999;

/// A data line of a catalog that does not hold the seven fields of a record.
#[derive(Clone, Copy, PartialEq, Eq, Debug, Structural)]
pub struct FormatError {
    /// Number of the offending line in the catalog text, counting from 1.
    pub line: usize,
}

/// A line that holds no record: blank, or a comment starting with `#`.
pub open spec fn skipped_line(l: Seq<char>) -> bool {
    trim(l).len() == 0 || (l.len() > 0 && l[0] == '#')
}

/// A line that is skipped or holds at least the seven fields of a record.
pub open spec fn line_ok(l: Seq<char>) -> bool {
    skipped_line(l) || split_delim(l).len() >= 7
}

/// The number that `s` spells, if it is at most `max`, else `default`.
pub open spec fn number_or(s: Seq<char>, max: nat, default: nat) -> nat {
    match parse_unsigned(s, max) {
        Some(n) => n,
        None => default,
    }
}

/// The record that a line with seven or more fields holds: date, read marker,
/// title, author, pages, series and path, each trimmed.
pub open spec fn line_record(l: Seq<char>) -> BookView {
    let f = split_delim(l);
    BookView {
        timestamp: number_or(trim(f[0]), u32::MAX as nat, NO_DATE as nat) as u32,
        read: trim(f[1]).len() > 0,
        title: trim(f[2]),
        author: trim(f[3]),
        pages: number_or(trim(f[4]), usize::MAX as nat, 0) as usize,
        series: trim(f[5]),
        path: trim(f[6]),
    }
}

/// The records of the lines `ls` that are not skipped, in order.
pub open spec fn records_of_lines(ls: Seq<Seq<char>>) -> Seq<BookView>
    decreases ls.len(),
{
    if ls.len() == 0 {
        Seq::empty()
    } else if skipped_line(ls.last()) {
        records_of_lines(ls.drop_last())
    } else {
        records_of_lines(ls.drop_last()).push(line_record(ls.last()))
    }
}

/// The lines of a catalog after its header.
pub open spec fn data_lines(text: Seq<char>) -> Seq<Seq<char>> {
    split_lines(text).drop_first()
}

/// Every data line of the catalog is skipped or holds a record.
pub open spec fn catalog_ok(text: Seq<char>) -> bool {
    forall|k: int| 0 <= k < data_lines(text).len() ==> line_ok(#[trigger] data_lines(text)[k])
}

/// The records that a catalog holds.
pub open spec fn decoded(text: Seq<char>) -> Seq<BookView> {
    records_of_lines(data_lines(text))
}

/// Data line `k` (counting from 0 after the header) is the first that holds
/// no record.
pub open spec fn first_bad_line(text: Seq<char>, k: int) -> bool {
    &&& 0 <= k < data_lines(text).len()
    &&& !line_ok(data_lines(text)[k])
    &&& forall|j: int| 0 <= j < k ==> line_ok(#[trigger] data_lines(text)[j])
}

fn copy_range(v: &Vec<char>, a: usize, b: usize) -> (r: Vec<char>)
    requires
        a <= b <= v.len(),
    ensures
        r@ == v@.subrange(a as int, b as int),
{
    let mut out: Vec<char> = Vec::new();
    let mut i = a;
    while i < b
        invariant
            a <= i <= b <= v.len(),
            out@ == v@.subrange(a as int, i as int),
        decreases b - i,
    {
        out.push(v[i]);
        assert(out@ =~= v@.subrange(a as int, i + 1));
        i += 1;
    }
    out
}

/// `v[a..b]` trimmed, as a string.
fn trimmed_text(v: &Vec<char>, a: usize, b: usize) -> (r: String)
    requires
        a <= b <= v.len(),
    ensures
        r@ == trim(v@.subrange(a as int, b as int)),
{
    let (x, y) = trim_bounds(v, a, b);
    string_of(&copy_range(v, x, y))
}

/// `v[a..b]`, trimmed, as a number no larger than `max`, or `default`.
fn number_in_range(v: &Vec<char>, a: usize, b: usize, max: u64, default: u64) -> (r: u64)
    requires
        a <= b <= v.len(),
        default <= max,
    ensures
        r == number_or(trim(v@.subrange(a as int, b as int)), max as nat, default as nat),
        r <= max,
{
    let (x, y) = trim_bounds(v, a, b);
    match parse_unsigned_range(v, x, y, max) {
        Some(n) => n,
        None => default,
    }
}

/// The record held by the line `v[lo..hi]`, if it has at least seven fields.
fn record_in_range(v: &Vec<char>, lo: usize, hi: usize) -> (r: Option<Book>)
    requires
        lo <= hi <= v.len(),
    ensures
        r is Some <==> split_delim(v@.subrange(lo as int, hi as int)).len() >= 7,
        r matches Some(b) ==> b@ == line_record(v@.subrange(lo as int, hi as int)),
{
    let ghost l = v@.subrange(lo as int, hi as int);
    let f = field_ranges(v, lo, hi);
    assert(range_texts(v@, f@).len() == f.len());
    if f.len() < 7 {
        return None;
    }
    proof {
        assert forall|k: int| 0 <= k < 7 implies v@.subrange(f[k].0 as int, f[k].1 as int)
            == split_delim(l)[k] by {
            assert(range_texts(v@, f@)[k] == v@.subrange(f@[k].0 as int, f@[k].1 as int));
        }
    }
    let timestamp = number_in_range(v, f[0].0, f[0].1, u32::MAX as u64, NO_DATE as u64);
    let (ra, rb) = trim_bounds(v, f[1].0, f[1].1);
    let pages = number_in_range(v, f[4].0, f[4].1, usize::MAX as u64, 0);
    Some(
        Book {
            timestamp: timestamp as u32,
            read: ra < rb,
            title: trimmed_text(v, f[2].0, f[2].1),
            author: trimmed_text(v, f[3].0, f[3].1),
            pages: pages as usize,
            series: trimmed_text(v, f[5].0, f[5].1),
            path: trimmed_text(v, f[6].0, f[6].1),
        },
    )
}

/// The record held by one data line of a catalog; `None` when the line has
/// fewer than seven fields.
pub fn line_to_book(line: &str) -> (r: Option<Book>)
    ensures
        r is Some <==> split_delim(line@).len() >= 7,
        r matches Some(b) ==> b@ == line_record(line@),
{
    let v = chars_of(line);
    assert(v@.subrange(0, v@.len() as int) =~= line@);
    record_in_range(&v, 0, v.len())
}

/// Whether the line `v[lo..hi]` is skipped.
fn skipped_range(v: &Vec<char>, lo: usize, hi: usize) -> (r: bool)
    requires
        lo <= hi <= v.len(),
    ensures
        r == skipped_line(v@.subrange(lo as int, hi as int)),
{
    let (a, b) = trim_bounds(v, lo, hi);
    a == b || (lo < hi && v[lo] == '#')
}

/// The records of a catalog text, in the order of their lines. An empty text
/// holds none. Fails on the first data line that is neither skipped nor
/// holds seven fields.
pub fn decode_library(text: &str) -> (r: Result<Vec<Book>, FormatError>)
    ensures
        r matches Ok(books) ==> catalog_ok(text@) && views(books@) == decoded(text@),
        r matches Err(e) ==> first_bad_line(text@, e.line - 2),
        r is Ok <==> catalog_ok(text@),
{
    let v = chars_of(text);
    let lines = line_ranges(&v, 0, v.len());
    assert(v@.subrange(0, v@.len() as int) =~= text@);
    let ghost all = split_lines(text@);
    let ghost dl = data_lines(text@);
    assert(range_texts(v@, lines@).len() == lines.len());
    let mut out: Vec<Book> = Vec::new();
    proof {
        lemma_split_lines_nonempty(text@);
        assert(dl.take(0) =~= Seq::<Seq<char>>::empty());
    }
    let mut k: usize = 1;
    while k < lines.len()
        invariant
            1 <= k <= lines.len(),
            v@ == text@,
            all == split_lines(text@),
            dl == all.drop_first(),
            range_texts(v@, lines@) == all,
            ranges_within(lines@, 0, v.len() as int),
            forall|j: int| 0 <= j < k - 1 ==> line_ok(#[trigger] dl[j]),
            views(out@) == records_of_lines(dl.take(k - 1)),
        decreases lines.len() - k,
    {
        let (a, b) = lines[k];
        assert(dl[k - 1] == v@.subrange(a as int, b as int));
        assert(dl.take(k as int).drop_last() =~= dl.take(k - 1));
        if skipped_range(&v, a, b) {
        } else {
            match record_in_range(&v, a, b) {
                Some(book) => {
                    let ghost before = views(out@);
                    out.push(book);
                    assert(views(out@) =~= before.push(book@));
                },
                None => {
                    assert(!line_ok(data_lines(text@)[k - 1]));
                    return Err(FormatError { line: k + 1 });
                },
            }
        }
        k += 1;
    }
    assert(dl.take(k - 1) =~= dl);
    Ok(out)
}

/// `n` spaces.
pub open spec fn spaces(n: nat) -> Seq<char> {
    Seq::new(n, |_i: int| ' ')
}

/// `f` padded on the right with spaces to width `w`; as it is when at least
/// that wide.
pub open spec fn pad(f: Seq<char>, w: nat) -> Seq<char> {
    if f.len() < w {
        f + spaces((w - f.len()) as nat)
    } else {
        f
    }
}

/// A field as written in its column: padded, then the delimiter.
pub open spec fn cell(f: Seq<char>, w: nat) -> Seq<char> {
    pad(f, w) + delim()
}

/// The cells of the fields `fs` in columns of the widths `ws`.
pub open spec fn cells(fs: Seq<Seq<char>>, ws: Seq<nat>) -> Seq<char>
    decreases fs.len(),
{
    if fs.len() == 0 {
        Seq::empty()
    } else {
        cells(fs.drop_last(), ws) + cell(fs.last(), ws[fs.len() - 1])
    }
}

/// One line of the table, newline included.
pub open spec fn row(fs: Seq<Seq<char>>, ws: Seq<nat>) -> Seq<char> {
    cells(fs, ws).push('\n')
}

/// The column labels.
pub open spec fn header_fields() -> Seq<Seq<char>> {
    seq![
        seq!['D', 'A', 'T', 'E'],
        seq!['R'],
        seq!['T', 'I', 'T', 'L', 'E'],
        seq!['A', 'U', 'T', 'H', 'O', 'R'],
        seq!['P', 'G'],
        seq!['S', 'E', 'R', 'I', 'E', 'S'],
        seq!['P', 'A', 'T', 'H'],
    ]
}

/// The fields of a book as the table shows them.
pub open spec fn book_fields(b: BookView) -> Seq<Seq<char>> {
    seq![
        decimal(b.timestamp as nat),
        read_marker(b.read),
        b.title,
        b.author,
        decimal(b.pages as nat),
        b.series,
        b.path,
    ]
}

/// The widest field of column `c` among the books `bs`.
pub open spec fn max_field_len(bs: Seq<BookView>, c: int) -> nat
    decreases bs.len(),
{
    if bs.len() == 0 {
        0
    } else {
        let m = max_field_len(bs.drop_last(), c);
        let l = book_fields(bs.last())[c].len();
        if m >= l {
            m
        } else {
            l
        }
    }
}

/// The width of column `c`: fixed for the date (6) and the read marker (2);
/// otherwise the widest of the label and the books' fields, in characters.
pub open spec fn column_width(bs: Seq<BookView>, c: int) -> nat {
    if c == 0 {
        6
    } else if c == 1 {
        2
    } else {
        let m = max_field_len(bs, c);
        let l = header_fields()[c].len();
        if m >= l {
            m
        } else {
            l
        }
    }
}

pub open spec fn column_widths(bs: Seq<BookView>) -> Seq<nat> {
    Seq::new(7, |c: int| column_width(bs, c))
}

/// The lines of the books `bs`.
pub open spec fn rows(bs: Seq<BookView>, ws: Seq<nat>) -> Seq<char>
    decreases bs.len(),
{
    if bs.len() == 0 {
        Seq::empty()
    } else {
        rows(bs.drop_last(), ws) + row(book_fields(bs.last()), ws)
    }
}

/// The header line and one line per book, in order.
pub open spec fn table(bs: Seq<BookView>) -> Seq<char> {
    row(header_fields(), column_widths(bs)) + rows(bs, column_widths(bs))
}

/// The catalog text of the books `bs`: the table without trailing whitespace.
pub open spec fn encoded(bs: Seq<BookView>) -> Seq<char> {
    trim_end(table(bs))
}

/// Widths as natural numbers.
pub open spec fn widths(ws: Seq<usize>) -> Seq<nat> {
    ws.map_values(|w: usize| w as nat)
}

/// Appends the cell of `field` in a column of width `width`.
fn push_cell(out: &mut Vec<char>, field: &Vec<char>, width: usize)
    ensures
        final(out)@ == old(out)@ + cell(field@, width as nat),
{
    let ghost start = out@;
    let mut i: usize = 0;
    while i < field.len()
        invariant
            i <= field.len(),
            out@ == start + field@.take(i as int),
        decreases field.len() - i,
    {
        out.push(field[i]);
        assert(out@ =~= start + field@.take(i + 1));
        i += 1;
    }
    let mut n = field.len();
    while n < width
        invariant
            field.len() <= n <= width || (n == field.len() && width < n),
            out@ == start + field@ + spaces((n - field.len()) as nat),
        decreases width - n,
    {
        out.push(' ');
        assert(out@ =~= start + field@ + spaces((n + 1 - field.len()) as nat));
        n += 1;
    }
    out.push(' ');
    out.push(' ');
    out.push('/');
    if field.len() < width {
        assert(out@ =~= start + cell(field@, width as nat));
    } else {
        assert(out@ =~= start + cell(field@, width as nat));
    }
}

/// A field left-aligned in a column of width `max_len` and followed by the
/// delimiter.
pub fn adjust_string_len(field: &str, max_len: usize) -> (r: String)
    ensures
        r@ == cell(field@, max_len as nat),
{
    let mut out: Vec<char> = Vec::new();
    push_cell(&mut out, &chars_of(field), max_len);
    assert(out@ =~= cell(field@, max_len as nat));
    string_of(&out)
}

/// One table line: each field in its column, then a newline.
pub fn tabulate_string(col_text: &Vec<String>, col_lens: &[usize; 7]) -> (r: String)
    requires
        col_text.len() == 7,
    ensures
        r@ == row(texts(col_text@), widths(col_lens@)),
{
    let ghost fs = texts(col_text@);
    let ghost ws = widths(col_lens@);
    let mut out: Vec<char> = Vec::new();
    let mut k: usize = 0;
    assert(fs.take(0) =~= Seq::<Seq<char>>::empty());
    while k < 7
        invariant
            k <= 7,
            col_text.len() == 7,
            fs == texts(col_text@),
            ws == widths(col_lens@),
            out@ == cells(fs.take(k as int), ws),
        decreases 7 - k,
    {
        assert(fs.take(k + 1).drop_last() =~= fs.take(k as int));
        push_cell(&mut out, &chars_of(col_text[k].as_str()), col_lens[k]);
        k += 1;
    }
    assert(fs.take(7) =~= fs);
    out.push('\n');
    string_of(&out)
}

/// The decimal text of a number.
fn decimal_string(n: u64) -> (r: String)
    ensures
        r@ == decimal(n as nat),
{
    string_of(&render_decimal(n))
}

/// The table line of a book in columns of the widths `col_lens`.
pub fn book_to_line(book: &Book, col_lens: [usize; 7]) -> (r: String)
    ensures
        r@ == row(book_fields(book@), widths(col_lens@)),
{
    let mut col_text: Vec<String> = Vec::new();
    col_text.push(decimal_string(book.timestamp as u64));
    col_text.push(book.read_symbol());
    col_text.push(book.title.clone());
    col_text.push(book.author.clone());
    col_text.push(decimal_string(book.pages as u64));
    col_text.push(book.series.clone());
    col_text.push(book.path.clone());
    assert(texts(col_text@) =~= book_fields(book@));
    tabulate_string(&col_text, &col_lens)
}

fn wider(m: usize, l: usize) -> (r: usize)
    ensures
        r == (if m >= l {
            m
        } else {
            l
        }),
{
    if m >= l {
        m
    } else {
        l
    }
}

/// The width of each column for the books of `library`.
pub fn get_max_column_sizes(library: &[Book]) -> (r: [usize; 7])
    ensures
        forall|c: int| 0 <= c < 7 ==> r@[c] == column_width(views(library@), c),
{
    let ghost bs = views(library@);
    let mut title: usize = 0;
    let mut author: usize = 0;
    let mut pages: usize = 0;
    let mut series: usize = 0;
    let mut path: usize = 0;
    let mut i: usize = 0;
    while i < library.len()
        invariant
            i <= library.len(),
            bs == views(library@),
            title == max_field_len(bs.take(i as int), 2),
            author == max_field_len(bs.take(i as int), 3),
            pages == max_field_len(bs.take(i as int), 4),
            series == max_field_len(bs.take(i as int), 5),
            path == max_field_len(bs.take(i as int), 6),
        decreases library.len() - i,
    {
        let b = &library[i];
        assert(bs.take(i + 1).drop_last() =~= bs.take(i as int));
        assert(bs.take(i + 1).last() == b@);
        title = wider(title, b.title.as_str().unicode_len());
        author = wider(author, b.author.as_str().unicode_len());
        pages = wider(pages, render_decimal(b.pages as u64).len());
        series = wider(series, b.series.as_str().unicode_len());
        path = wider(path, b.path.as_str().unicode_len());
        i += 1;
    }
    assert(bs.take(i as int) =~= bs);
    let r = [6, 2, wider(title, 5), wider(author, 6), wider(pages, 2), wider(series, 6), wider(path, 4)];
    assert(r@[2] == column_width(bs, 2));
    r
}

/// The catalog text of `library`: a header line, then one line per book in
/// the given order, without trailing whitespace.
pub fn library_to_string(library: &[Book]) -> (r: String)
    ensures
        r@ == encoded(views(library@)),
{
    let ghost bs = views(library@);
    let col_lens = get_max_column_sizes(library);
    let ghost ws = widths(col_lens@);
    assert(ws =~= column_widths(bs));
    let mut header: Vec<String> = Vec::new();
    proof {
        reveal_strlit("DATE");
        reveal_strlit("R");
        reveal_strlit("TITLE");
        reveal_strlit("AUTHOR");
        reveal_strlit("PG");
        reveal_strlit("SERIES");
        reveal_strlit("PATH");
        assert("DATE"@ =~= header_fields()[0]);
        assert("R"@ =~= header_fields()[1]);
        assert("TITLE"@ =~= header_fields()[2]);
        assert("AUTHOR"@ =~= header_fields()[3]);
        assert("PG"@ =~= header_fields()[4]);
        assert("SERIES"@ =~= header_fields()[5]);
        assert("PATH"@ =~= header_fields()[6]);
    }
    header.push(String::from_str("DATE"));
    header.push(String::from_str("R"));
    header.push(String::from_str("TITLE"));
    header.push(String::from_str("AUTHOR"));
    header.push(String::from_str("PG"));
    header.push(String::from_str("SERIES"));
    header.push(String::from_str("PATH"));
    assert(texts(header@) =~= header_fields());
    let mut lib_str = tabulate_string(&header, &col_lens);
    let mut i: usize = 0;
    while i < library.len()
        invariant
            i <= library.len(),
            bs == views(library@),
            ws == column_widths(bs),
            ws == widths(col_lens@),
            lib_str@ == row(header_fields(), ws) + rows(bs.take(i as int), ws),
        decreases library.len() - i,
    {
        assert(bs.take(i + 1).drop_last() =~= bs.take(i as int));
        assert(bs.take(i + 1).last() == library@[i as int]@);
        let line = book_to_line(&library[i], col_lens);
        lib_str.append(line.as_str());
        assert(lib_str@ =~= row(header_fields(), ws) + rows(bs.take(i + 1), ws));
        i += 1;
    }
    assert(bs.take(i as int) =~= bs);
    let v = chars_of(lib_str.as_str());
    let n = trim_end_len(&v);
    string_of(&copy_range(&v, 0, n))
}

/// A text field that survives a write and a read unchanged: no surrounding
/// whitespace, no newline and no delimiter inside.
pub open spec fn clean_text(f: Seq<char>) -> bool {
    trim(f) == f && !f.contains('\n') && no_delim(f)
}

/// A book whose text fields are all clean.
pub open spec fn well_formed_book(b: BookView) -> bool {
    clean_text(b.title) && clean_text(b.author) && clean_text(b.series) && clean_text(b.path)
}

} // verus!
