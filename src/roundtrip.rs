//! Writing a catalog and reading it back gives the same books.

use vstd::prelude::*;
use crate::book::{read_marker, BookView};
use crate::codec::{
    book_fields, catalog_ok, cells, column_widths, data_lines, decoded, encoded, header_fields,
    line_ok, line_record, number_or, pad, records_of_lines, row, rows, skipped_line, spaces, table,
    well_formed_book, NO_DATE,
};
use crate::split::{
    delim, delim_at, lemma_split_delim_nonempty, lemma_split_lines_nonempty, no_delim, prepend,
    split_delim, split_lines,
};
use crate::text::{
    all_digits, decimal, digit_char, digits_value, is_digit, is_ws, parse_unsigned, trim, trim_end,
    trim_start, unsigned_digits,
};

verus! {

proof fn lemma_split_delim_concat(a: Seq<char>, b: Seq<char>)
    ensures
        split_delim(a + delim() + b) == split_delim(a) + split_delim(b),
    decreases a.len(),
{
    let s = a + delim() + b;
    if a.len() == 0 {
        assert(s =~= delim() + b);
        assert(delim_at(s, 0));
        assert(s.subrange(3, s.len() as int) =~= b);
        assert(split_delim(a) =~= seq![Seq::<char>::empty()]);
    } else if a.len() >= 3 && delim_at(a, 0) {
        assert(delim_at(s, 0));
        let a2 = a.subrange(3, a.len() as int);
        assert(s.subrange(3, s.len() as int) =~= a2 + delim() + b);
        lemma_split_delim_concat(a2, b);
        assert(split_delim(s) =~= split_delim(a) + split_delim(b));
    } else {
        assert(!delim_at(s, 0));
        assert(!delim_at(a, 0));
        let a1 = a.drop_first();
        assert(s.drop_first() =~= a1 + delim() + b);
        lemma_split_delim_concat(a1, b);
        lemma_split_delim_nonempty(a1);
        assert(prepend(seq![a[0]], split_delim(a1) + split_delim(b)) =~= prepend(
            seq![a[0]],
            split_delim(a1),
        ) + split_delim(b));
    }
}

proof fn lemma_split_delim_single(x: Seq<char>)
    requires
        no_delim(x),
    ensures
        split_delim(x) == seq![x],
    decreases x.len(),
{
    if x.len() > 0 {
        assert(!delim_at(x, 0));
        let x1 = x.drop_first();
        assert forall|i: int| !delim_at(x1, i) by {
            assert(!delim_at(x, i + 1));
        }
        lemma_split_delim_single(x1);
        assert(seq![x[0]] + x1 =~= x);
        assert(prepend(seq![x[0]], seq![x1]) =~= seq![x]);
    } else {
        assert(x =~= Seq::<char>::empty());
    }
}

proof fn lemma_split_lines_concat(a: Seq<char>, b: Seq<char>)
    ensures
        split_lines(a + seq!['\n'] + b) == split_lines(a) + split_lines(b),
    decreases a.len(),
{
    let s = a + seq!['\n'] + b;
    if a.len() == 0 {
        assert(s.drop_first() =~= b);
        assert(split_lines(a) =~= seq![Seq::<char>::empty()]);
    } else {
        let a1 = a.drop_first();
        assert(s.drop_first() =~= a1 + seq!['\n'] + b);
        lemma_split_lines_concat(a1, b);
        lemma_split_lines_nonempty(a1);
        if a[0] == '\n' {
            assert(split_lines(s) =~= split_lines(a) + split_lines(b));
        } else {
            assert(prepend(seq![a[0]], split_lines(a1) + split_lines(b)) =~= prepend(
                seq![a[0]],
                split_lines(a1),
            ) + split_lines(b));
        }
    }
}

proof fn lemma_split_lines_single(x: Seq<char>)
    requires
        !x.contains('\n'),
    ensures
        split_lines(x) == seq![x],
    decreases x.len(),
{
    if x.len() > 0 {
        assert(x[0] != '\n');
        let x1 = x.drop_first();
        assert(!x1.contains('\n')) by {
            if x1.contains('\n') {
                let i = choose|i: int| 0 <= i < x1.len() && x1[i] == '\n';
                assert(x[i + 1] == '\n');
            }
        }
        lemma_split_lines_single(x1);
        assert(seq![x[0]] + x1 =~= x);
        assert(prepend(seq![x[0]], seq![x1]) =~= seq![x]);
    } else {
        assert(x =~= Seq::<char>::empty());
    }
}

proof fn lemma_pad_no_delim(f: Seq<char>, w: nat)
    requires
        no_delim(f),
    ensures
        no_delim(pad(f, w)),
{
    let p = pad(f, w);
    assert forall|i: int| !delim_at(p, i) by {
        if delim_at(p, i) {
            if i + 2 >= f.len() {
                assert(p[i + 2] == ' ');
            } else {
                assert(delim_at(f, i));
            }
        }
    }
}

proof fn lemma_trim_start_len(s: Seq<char>)
    ensures
        trim_start(s).len() <= s.len(),
        s.len() > 0 && is_ws(s[0]) ==> trim_start(s).len() < s.len(),
    decreases s.len(),
{
    if s.len() > 0 && is_ws(s[0]) {
        lemma_trim_start_len(s.drop_first());
    }
}

proof fn lemma_trim_end_len(s: Seq<char>)
    ensures
        trim_end(s).len() <= s.len(),
        s.len() > 0 && is_ws(s.last()) ==> trim_end(s).len() < s.len(),
    decreases s.len(),
{
    if s.len() > 0 && is_ws(s.last()) {
        lemma_trim_end_len(s.drop_last());
    }
}

/// A trimmed nonempty text starts and ends with non-whitespace.
proof fn lemma_trimmed_ends(f: Seq<char>)
    requires
        trim(f) == f,
        f.len() > 0,
    ensures
        !is_ws(f[0]),
        !is_ws(f.last()),
{
    lemma_trim_start_len(f);
    lemma_trim_end_len(trim_start(f));
    if !is_ws(f[0]) {
        lemma_trim_end_len(f);
    }
}

proof fn lemma_trim_end_spaces(x: Seq<char>, n: nat)
    ensures
        trim_end(x + spaces(n)) == trim_end(x),
    decreases n,
{
    if n > 0 {
        assert((x + spaces(n)).drop_last() =~= x + spaces((n - 1) as nat));
        lemma_trim_end_spaces(x, (n - 1) as nat);
    } else {
        assert(x + spaces(n) =~= x);
    }
}

proof fn lemma_trim_start_spaces(n: nat)
    ensures
        trim_start(spaces(n)) == Seq::<char>::empty(),
    decreases n,
{
    if n > 0 {
        assert(spaces(n).drop_first() =~= spaces((n - 1) as nat));
        lemma_trim_start_spaces((n - 1) as nat);
    } else {
        assert(spaces(n) =~= Seq::<char>::empty());
    }
}

/// Padding a trimmed field and trimming it again gives the field back.
proof fn lemma_trim_pad(f: Seq<char>, w: nat)
    requires
        trim(f) == f,
    ensures
        trim(pad(f, w)) == f,
{
    let n: nat = if f.len() < w {
        (w - f.len()) as nat
    } else {
        0
    };
    assert(pad(f, w) =~= f + spaces(n));
    if f.len() == 0 {
        assert(f + spaces(n) =~= spaces(n));
        lemma_trim_start_spaces(n);
        assert(trim_end(Seq::<char>::empty()) == Seq::<char>::empty());
        assert(f =~= Seq::<char>::empty());
    } else {
        lemma_trimmed_ends(f);
        assert((f + spaces(n))[0] == f[0]);
        assert(trim_start(f + spaces(n)) == f + spaces(n));
        lemma_trim_end_spaces(f, n);
        assert(trim_end(f) == f);
    }
}

proof fn lemma_decimal(n: nat)
    ensures
        decimal(n).len() > 0,
        all_digits(decimal(n)),
        digits_value(decimal(n)) == n,
    decreases n,
{
    if n < 10 {
        assert(decimal(n).drop_last() =~= Seq::<char>::empty());
        assert(digit_char(n) as u32 == n + 48);
        assert(decimal(n).last() == digit_char(n));
        assert(digits_value(decimal(n)) == digits_value(Seq::<char>::empty()) * 10 + n);
    } else {
        lemma_decimal(n / 10);
        let d = decimal(n);
        assert(d.drop_last() =~= decimal(n / 10));
        assert(digit_char(n % 10) as u32 == n % 10 + 48);
        assert(d.last() == digit_char(n % 10));
        assert(digits_value(d) == digits_value(decimal(n / 10)) * 10 + (n % 10));
        assert((n / 10) * 10 + n % 10 == n) by (nonlinear_arith);
        assert forall|i: int| 0 <= i < d.len() implies is_digit(#[trigger] d[i]) by {
            if i < d.len() - 1 {
                assert(d[i] == decimal(n / 10)[i]);
            }
        }
    }
}

/// A number's decimal text is trimmed, holds no delimiter or newline, and
/// parses back to the number.
proof fn lemma_decimal_round_trip(n: nat, max: nat)
    requires
        n <= max,
    ensures
        trim(decimal(n)) == decimal(n),
        no_delim(decimal(n)),
        !decimal(n).contains('\n'),
        parse_unsigned(decimal(n), max) == Some(n),
{
    lemma_decimal(n);
    let d = decimal(n);
    assert(is_digit(d[0]));
    assert(is_digit(d[d.len() - 1]));
    assert(trim_start(d) == d);
    assert(trim_end(d) == d);
    assert(unsigned_digits(d) == d);
    assert forall|i: int| !delim_at(d, i) by {
        if 0 <= i < d.len() {
            assert(is_digit(d[i]));
        }
    }
    assert(!d.contains('\n')) by {
        if d.contains('\n') {
            let i = choose|i: int| 0 <= i < d.len() && d[i] == '\n';
            assert(is_digit(d[i]));
        }
    }
}

/// The padded fields of a line.
spec fn pads(fs: Seq<Seq<char>>, ws: Seq<nat>) -> Seq<Seq<char>> {
    Seq::new(fs.len(), |k: int| pad(fs[k], ws[k]))
}

proof fn lemma_split_last_pad(fs: Seq<Seq<char>>, ws: Seq<nat>)
    requires
        fs.len() >= 1,
        ws.len() >= fs.len(),
        forall|k: int| 0 <= k < fs.len() ==> no_delim(#[trigger] fs[k]),
    ensures
        split_delim(cells(fs.drop_last(), ws) + pad(fs.last(), ws[fs.len() - 1])) == pads(fs, ws),
    decreases fs.len(),
{
    let last = pad(fs.last(), ws[fs.len() - 1]);
    lemma_pad_no_delim(fs.last(), ws[fs.len() - 1]);
    lemma_split_delim_single(last);
    let f1 = fs.drop_last();
    if fs.len() == 1 {
        assert(cells(f1, ws) =~= Seq::<char>::empty());
        assert(cells(f1, ws) + last =~= last);
        assert(pads(fs, ws) =~= seq![last]);
    } else {
        lemma_split_last_pad(f1, ws);
        let a = cells(f1.drop_last(), ws) + pad(f1.last(), ws[f1.len() - 1]);
        assert(cells(f1, ws) + last =~= a + delim() + last);
        lemma_split_delim_concat(a, last);
        assert(pads(f1, ws).push(last) =~= pads(fs, ws));
    }
}

/// The fields of a line of cells are the padded fields, then an empty piece
/// after the last delimiter.
proof fn lemma_split_cells(fs: Seq<Seq<char>>, ws: Seq<nat>)
    requires
        fs.len() >= 1,
        ws.len() >= fs.len(),
        forall|k: int| 0 <= k < fs.len() ==> no_delim(#[trigger] fs[k]),
    ensures
        split_delim(cells(fs, ws)) == pads(fs, ws).push(Seq::<char>::empty()),
{
    lemma_split_last_pad(fs, ws);
    let a = cells(fs.drop_last(), ws) + pad(fs.last(), ws[fs.len() - 1]);
    assert(cells(fs, ws) =~= a + delim() + Seq::<char>::empty());
    lemma_split_delim_concat(a, Seq::<char>::empty());
    assert(split_delim(Seq::<char>::empty()) =~= seq![Seq::<char>::empty()]);
}

proof fn lemma_cells_no_newline(fs: Seq<Seq<char>>, ws: Seq<nat>)
    requires
        ws.len() >= fs.len(),
        forall|k: int| 0 <= k < fs.len() ==> !(#[trigger] fs[k]).contains('\n'),
    ensures
        !cells(fs, ws).contains('\n'),
    decreases fs.len(),
{
    if fs.len() > 0 {
        lemma_cells_no_newline(fs.drop_last(), ws);
        let a = cells(fs.drop_last(), ws);
        let f = fs.last();
        let c = cells(fs, ws);
        let p = pad(f, ws[fs.len() - 1]);
        assert(c =~= a + p + delim());
        if c.contains('\n') {
            let i = choose|i: int| 0 <= i < c.len() && c[i] == '\n';
            if i < a.len() {
                assert(a[i] == '\n');
            } else if i < a.len() + f.len() {
                assert(f[i - a.len()] == '\n');
            } else {
            }
        }
    } else {
        assert(cells(fs, ws) =~= Seq::<char>::empty());
    }
}

proof fn lemma_split_first_char(s: Seq<char>)
    requires
        split_delim(s)[0].len() > 0,
    ensures
        s.len() > 0,
        s[0] == split_delim(s)[0][0],
{
    if s.len() == 0 {
    } else if delim_at(s, 0) {
    } else {
        lemma_split_delim_nonempty(s.drop_first());
    }
}

/// A single-character marker is trimmed and holds no delimiter or newline.
proof fn lemma_marker(read: bool, w: nat)
    ensures
        no_delim(read_marker(read)),
        !read_marker(read).contains('\n'),
        trim(pad(read_marker(read), w)).len() > 0 <==> read,
{
    let m = read_marker(read);
    assert forall|i: int| !delim_at(m, i) by {}
    if read {
        assert(trim_start(m) == m);
        assert(trim_end(m) == m);
        lemma_trim_pad(m, w);
    } else {
        let n: nat = if w > 1 {
            w
        } else {
            1
        };
        assert(pad(m, w) =~= spaces(n));
        lemma_trim_start_spaces(n);
        assert(trim_end(Seq::<char>::empty()) == Seq::<char>::empty());
    }
}

/// The line written for a well-formed book reads back as that book.
proof fn lemma_book_line(b: BookView, ws: Seq<nat>)
    requires
        well_formed_book(b),
        ws.len() == 7,
    ensures
        !skipped_line(cells(book_fields(b), ws)),
        line_ok(cells(book_fields(b), ws)),
        line_record(cells(book_fields(b), ws)) == b,
        !cells(book_fields(b), ws).contains('\n'),
{
    let fs = book_fields(b);
    let l = cells(fs, ws);
    lemma_decimal_round_trip(b.timestamp as nat, u32::MAX as nat);
    lemma_decimal_round_trip(b.pages as nat, usize::MAX as nat);
    lemma_marker(b.read, ws[1]);
    assert forall|k: int| 0 <= k < fs.len() implies no_delim(#[trigger] fs[k]) && !fs[k].contains('\n') by {}
    lemma_split_cells(fs, ws);
    lemma_cells_no_newline(fs, ws);
    let f = split_delim(l);
    assert(f.len() == 8);
    assert(f[0] == pad(decimal(b.timestamp as nat), ws[0]));
    lemma_trim_pad(decimal(b.timestamp as nat), ws[0]);
    lemma_trim_pad(decimal(b.pages as nat), ws[4]);
    lemma_trim_pad(b.title, ws[2]);
    lemma_trim_pad(b.author, ws[3]);
    lemma_trim_pad(b.series, ws[5]);
    lemma_trim_pad(b.path, ws[6]);
    assert(number_or(trim(f[0]), u32::MAX as nat, NO_DATE as nat) == b.timestamp);
    assert(number_or(trim(f[4]), usize::MAX as nat, 0) == b.pages);
    assert(f[1] == pad(read_marker(b.read), ws[1]));
    assert(f[2] == pad(b.title, ws[2]));
    assert(f[3] == pad(b.author, ws[3]));
    assert(f[4] == pad(decimal(b.pages as nat), ws[4]));
    assert(f[5] == pad(b.series, ws[5]));
    assert(f[6] == pad(b.path, ws[6]));
    assert(fs[1] == read_marker(b.read));
    let r = line_record(l);
    assert(r.timestamp == b.timestamp);
    assert(r.read == b.read);
    assert(r.title == b.title);
    assert(r.pages == b.pages);
    assert(line_record(l) == b);
    lemma_decimal(b.timestamp as nat);
    let d = decimal(b.timestamp as nat);
    assert(f[0][0] == d[0]);
    lemma_split_first_char(l);
    assert(is_digit(d[0]));
    assert(!is_ws(l[0]));
    assert(trim_start(l) == l);
    assert(l.last() == '/');
    assert(trim_end(l) == l);
}

/// The data lines of the books `bs` in columns of widths `ws`.
spec fn book_lines(bs: Seq<BookView>, ws: Seq<nat>) -> Seq<Seq<char>> {
    Seq::new(bs.len(), |k: int| cells(book_fields(bs[k]), ws))
}

proof fn lemma_header_no_newline(ws: Seq<nat>)
    requires
        ws.len() == 7,
    ensures
        !cells(header_fields(), ws).contains('\n'),
{
    let h = header_fields();
    assert forall|k: int| 0 <= k < h.len() implies !(#[trigger] h[k]).contains('\n') by {
        assert forall|i: int| 0 <= i < h[k].len() implies h[k][i] != '\n' by {}
    }
    lemma_cells_no_newline(h, ws);
}

proof fn lemma_table_lines(bs: Seq<BookView>, ws: Seq<nat>)
    requires
        ws.len() == 7,
        forall|i: int| 0 <= i < bs.len() ==> well_formed_book(#[trigger] bs[i]),
    ensures
        (row(header_fields(), ws) + rows(bs, ws)).len() > 1,
        (row(header_fields(), ws) + rows(bs, ws)).last() == '\n',
        (row(header_fields(), ws) + rows(bs, ws)).drop_last().last() == '/',
        split_lines((row(header_fields(), ws) + rows(bs, ws)).drop_last()) == seq![
            cells(header_fields(), ws),
        ] + book_lines(bs, ws),
    decreases bs.len(),
{
    let h = row(header_fields(), ws);
    if bs.len() == 0 {
        assert(h + rows(bs, ws) =~= h);
        assert(h.drop_last() =~= cells(header_fields(), ws));
        lemma_header_no_newline(ws);
        lemma_split_lines_single(cells(header_fields(), ws));
        assert(book_lines(bs, ws) =~= Seq::<Seq<char>>::empty());
    } else {
        let b1 = bs.drop_last();
        lemma_table_lines(b1, ws);
        let x = h + rows(b1, ws);
        let c = cells(book_fields(bs.last()), ws);
        lemma_book_line(bs.last(), ws);
        assert(h + rows(bs, ws) =~= x + c.push('\n'));
        assert((x + c.push('\n')).drop_last() =~= x.drop_last() + seq!['\n'] + c);
        lemma_split_lines_concat(x.drop_last(), c);
        lemma_split_lines_single(c);
        assert(book_lines(b1, ws).push(c) =~= book_lines(bs, ws));
    }
}

proof fn lemma_records_of_book_lines(bs: Seq<BookView>, ws: Seq<nat>)
    requires
        ws.len() == 7,
        forall|i: int| 0 <= i < bs.len() ==> well_formed_book(#[trigger] bs[i]),
    ensures
        records_of_lines(book_lines(bs, ws)) == bs,
        forall|k: int| 0 <= k < bs.len() ==> line_ok(#[trigger] book_lines(bs, ws)[k]),
    decreases bs.len(),
{
    if bs.len() > 0 {
        let b1 = bs.drop_last();
        lemma_records_of_book_lines(b1, ws);
        assert(book_lines(bs, ws).drop_last() =~= book_lines(b1, ws));
        lemma_book_line(bs.last(), ws);
        assert(b1.push(bs.last()) =~= bs);
        assert forall|k: int| 0 <= k < bs.len() implies line_ok(#[trigger] book_lines(bs, ws)[k]) by {
            if k < b1.len() {
                assert(book_lines(bs, ws)[k] == book_lines(b1, ws)[k]);
            } else {
                lemma_book_line(bs[k], ws);
            }
        }
    } else {
        assert(book_lines(bs, ws) =~= Seq::<Seq<char>>::empty());
    }
}

/// Writing well-formed books and reading the text back gives the same books
/// in the same order.
pub proof fn lemma_round_trip(bs: Seq<BookView>)
    requires
        forall|i: int| 0 <= i < bs.len() ==> well_formed_book(#[trigger] bs[i]),
    ensures
        catalog_ok(encoded(bs)),
        decoded(encoded(bs)) == bs,
{
    let ws = column_widths(bs);
    let t = table(bs);
    lemma_table_lines(bs, ws);
    assert(t == row(header_fields(), ws) + rows(bs, ws));
    assert(trim_end(t.drop_last()) == t.drop_last());
    assert(encoded(bs) == t.drop_last());
    lemma_records_of_book_lines(bs, ws);
    assert(data_lines(encoded(bs)) =~= book_lines(bs, ws));
}

} // verus!
