//! The sort engine: a stable sort of the catalog by one field, optionally
//! reversed afterwards.

use vstd::prelude::*;
use crate::book::{book_le, key_le, views, Book, BookView, SortBy};
use crate::text::{chars_of, lemma_text_le_total, lemma_text_le_transitive};

verus! {

pub proof fn lemma_key_le_total(a: BookView, b: BookView, by: SortBy)
    ensures
        key_le(a, b, by) || key_le(b, a, by),
{
    match by {
        SortBy::Title => lemma_text_le_total(a.title, b.title),
        SortBy::Author => lemma_text_le_total(a.author, b.author),
        SortBy::Series => lemma_text_le_total(a.series, b.series),
        _ => {},
    }
}

pub proof fn lemma_key_le_transitive(a: BookView, b: BookView, c: BookView, by: SortBy)
    requires
        key_le(a, b, by),
        key_le(b, c, by),
    ensures
        key_le(a, c, by),
{
    match by {
        SortBy::Title => lemma_text_le_transitive(a.title, b.title, c.title),
        SortBy::Author => lemma_text_le_transitive(a.author, b.author, c.author),
        SortBy::Series => lemma_text_le_transitive(a.series, b.series, c.series),
        _ => {},
    }
}

/// `p` shows that `r` is `s` stably sorted by `by`: `r[i]` is `s[p[i]]`, no
/// index of `s` is used twice, `r` is in ascending order, and books whose
/// keys tie keep the order they had in `s`.
pub open spec fn stable_witness(s: Seq<BookView>, r: Seq<BookView>, p: Seq<int>, by: SortBy) -> bool {
    &&& r.len() == s.len()
    &&& p.len() == s.len()
    &&& forall|i: int| 0 <= i < r.len() ==> 0 <= #[trigger] p[i] < s.len() && r[i] == s[p[i]]
    &&& forall|i: int, j: int| 0 <= i < j < r.len() ==> p[i] != p[j]
    &&& forall|i: int, j: int| 0 <= i < j < r.len() ==> key_le(r[i], r[j], by)
    &&& forall|i: int, j: int| 0 <= i < j < r.len() && key_le(r[j], r[i], by) ==> p[i] < p[j]
}

/// `r` is `s` stably sorted in ascending order of `by`.
pub open spec fn sorts_stably(s: Seq<BookView>, r: Seq<BookView>, by: SortBy) -> bool {
    exists|p: Seq<int>| stable_witness(s, r, p, by)
}

/// What sorting `s` by `by`, then reversing when `reverse` is set, yields:
/// the same books, stably sorted, and reversed as a whole afterwards.
pub open spec fn sort_outcome(s: Seq<BookView>, r: Seq<BookView>, by: SortBy, reverse: bool) -> bool {
    &&& r.to_multiset() == s.to_multiset()
    &&& if reverse {
        sorts_stably(s, r.reverse(), by)
    } else {
        sorts_stably(s, r, by)
    }
}

/// The sort invariant after the first `i` books are placed.
spec fn placed(s: Seq<BookView>, v: Seq<BookView>, p: Seq<int>, i: int, by: SortBy) -> bool {
    &&& v.len() == s.len()
    &&& p.len() == s.len()
    &&& 0 <= i <= s.len()
    &&& forall|k: int| 0 <= k < v.len() ==> 0 <= #[trigger] p[k] < s.len() && v[k] == s[p[k]]
    &&& forall|k: int| i <= k < v.len() ==> #[trigger] p[k] == k
    &&& forall|k: int| 0 <= k < i ==> #[trigger] p[k] < i
    &&& forall|a: int, b: int| 0 <= a < b < v.len() ==> p[a] != p[b]
    &&& forall|a: int, b: int| 0 <= a < b < i ==> key_le(v[a], v[b], by)
    &&& forall|a: int, b: int| 0 <= a < b < i && key_le(v[b], v[a], by) ==> p[a] < p[b]
}

/// Moving `v[i]` to position `j`, behind every placed book whose key is not
/// above its own, keeps the invariant for one more book.
proof fn lemma_place_one(s: Seq<BookView>, v: Seq<BookView>, p: Seq<int>, i: int, j: int, by: SortBy)
    requires
        placed(s, v, p, i, by),
        0 <= j <= i < v.len(),
        j > 0 ==> key_le(v[j - 1], v[i], by),
        forall|k: int| j <= k < i ==> !key_le(#[trigger] v[k], v[i], by),
    ensures
        placed(s, v.remove(i).insert(j, v[i]), p.remove(i).insert(j, i), i + 1, by),
{
    let x = v[i];
    let w = v.remove(i).insert(j, x);
    let q = p.remove(i).insert(j, i);
    assert forall|k: int| 0 <= k < w.len() implies (k < j ==> w[k] == v[k] && q[k] == p[k]) && (k
        == j ==> w[k] == x && q[k] == i) && (j < k <= i ==> w[k] == v[k - 1] && q[k] == p[k - 1])
        && (i < k ==> w[k] == v[k] && q[k] == p[k]) by {}
    assert forall|a: int, b: int| 0 <= a < b < i + 1 implies key_le(w[a], w[b], by) by {
        if b < j {
        } else if b == j {
            if a < j - 1 {
                lemma_key_le_transitive(v[a], v[j - 1], x, by);
            }
        } else if a == j {
            lemma_key_le_total(v[b - 1], x, by);
        } else if a < j {
        } else {
        }
    }
    assert forall|a: int, b: int| 0 <= a < b < i + 1 && key_le(w[b], w[a], by) implies q[a]
        < q[b] by {
        if b < j {
        } else if b == j {
        } else if a == j {
        } else if a < j {
        } else {
        }
    }
    assert forall|a: int, b: int| 0 <= a < b < w.len() implies q[a] != q[b] by {
        if a == j || b == j {
        } else {
        }
    }
    assert forall|k: int| 0 <= k < w.len() implies 0 <= #[trigger] q[k] < s.len() && w[k] == s[q[k]] by {
        if k < j {
            assert(0 <= p[k] < s.len());
        } else if k == j {
            assert(p[i] == i);
        } else if k <= i {
            assert(0 <= p[k - 1] < s.len());
        } else {
            assert(0 <= p[k] < s.len());
        }
    }
    assert forall|k: int| i + 1 <= k < w.len() implies #[trigger] q[k] == k by {}
    assert forall|k: int| 0 <= k < i + 1 implies #[trigger] q[k] < i + 1 by {}
    assert(w.len() == s.len());
    assert(q.len() == s.len());
}

/// Reverses `v` as a whole.
fn reverse_books(v: &mut Vec<Book>)
    ensures
        final(v)@ == old(v)@.reverse(),
{
    let ghost orig = v@;
    let mut out: Vec<Book> = Vec::new();
    while v.len() > 0
        invariant
            v@ == orig.take(v.len() as int),
            out@ == orig.reverse().take(orig.len() - v.len()),
            v.len() <= orig.len(),
        decreases v.len(),
    {
        let b = v.pop().unwrap();
        assert(out@.push(b) =~= orig.reverse().take(orig.len() - v.len()));
        out.push(b);
        assert(v@ =~= orig.take(v.len() as int));
    }
    assert(out@ =~= orig.reverse());
    *v = out;
}

/// Sorts the catalog stably by `sort_by` (equal keys keep their order), then
/// reverses the whole sequence when `reverse` is set.
#[verifier::loop_isolation(false)]
pub fn sort_library(library: &mut Vec<Book>, sort_by: &SortBy, reverse: bool)
    ensures
        sort_outcome(views(old(library)@), views(final(library)@), *sort_by, reverse),
{
    broadcast use vstd::seq_lib::group_to_multiset_ensures;

    let by = *sort_by;
    let ghost s = views(library@);
    let ghost mut p: Seq<int> = Seq::new(library.len() as nat, |k: int| k);
    let n = library.len();
    let mut i: usize = 0;
    while i < n
        invariant
            library.len() == n,
            placed(s, views(library@), p, i as int, by),
            views(library@).to_multiset() == s.to_multiset(),
        decreases n - i,
    {
        let mut j = i;
        while j > 0 && !book_le(&library[j - 1], &library[i], by)
            invariant
                j <= i,
                forall|k: int| j <= k < i ==> !key_le(#[trigger] views(library@)[k], library@[i as int]@, by),
            decreases j,
        {
            j -= 1;
        }
        let ghost v = views(library@);
        proof {
            lemma_place_one(s, v, p, i as int, j as int, by);
        }
        let b = library.remove(i);
        library.insert(j, b);
        proof {
            assert(views(library@) =~= v.remove(i as int).insert(j as int, v[i as int]));
            p = p.remove(i as int).insert(j as int, i as int);
        }
        i += 1;
    }
    assert(stable_witness(s, views(library@), p, by));
    if reverse {
        let ghost sorted = views(library@);
        reverse_books(library);
        proof {
            assert(views(library@).reverse() =~= sorted);
            sorted.lemma_reverse_to_multiset();
            assert(views(library@) =~= sorted.reverse());
        }
    }
}

/// What `str::to_lowercase` makes of a text: the full Unicode lowercase mapping.
pub uninterp spec fn lower_of(s: Seq<char>) -> Seq<char>;

/// Relies on `str::to_lowercase`: the lowercase form of `s`, which depends on
/// its characters alone.
#[verifier::external_body]
fn lowercase(s: &str) -> (r: String)
    ensures
        r@ == lower_of(s@),
{
    s.to_lowercase()
}

/// The sort key that a lowercase option name selects; `Date` for any name
/// that is not recognised.
pub open spec fn sort_option(name: Seq<char>) -> SortBy {
    if name == "r"@ || name == "read"@ {
        SortBy::Read
    } else if name == "t"@ || name == "title"@ {
        SortBy::Title
    } else if name == "a"@ || name == "author"@ {
        SortBy::Author
    } else if name == "p"@ || name == "pages"@ {
        SortBy::Pages
    } else if name == "s"@ || name == "series"@ {
        SortBy::Series
    } else {
        SortBy::Date
    }
}

fn same_chars(a: &Vec<char>, lit: &str) -> (r: bool)
    ensures
        r == (a@ == lit@),
{
    let b = chars_of(lit);
    if a.len() != b.len() {
        return false;
    }
    let mut i: usize = 0;
    while i < a.len()
        invariant
            a.len() == b.len(),
            b@ == lit@,
            i <= a.len(),
            a@.take(i as int) == b@.take(i as int),
        decreases a.len() - i,
    {
        if a[i] != b[i] {
            assert(a@[i as int] != b@[i as int]);
            assert(a@ != b@);
            return false;
        }
        assert(a@.take(i + 1) =~= a@.take(i as int).push(a[i as int]));
        assert(b@.take(i + 1) =~= b@.take(i as int).push(b[i as int]));
        i += 1;
    }
    assert(a@ =~= a@.take(i as int));
    assert(b@ =~= b@.take(i as int));
    true
}

/// The sort key named by an already lowercased option name.
pub fn sort_by_name(name: &str) -> (r: SortBy)
    ensures
        r == sort_option(name@),
{
    let n = chars_of(name);
    if same_chars(&n, "r") || same_chars(&n, "read") {
        SortBy::Read
    } else if same_chars(&n, "t") || same_chars(&n, "title") {
        SortBy::Title
    } else if same_chars(&n, "a") || same_chars(&n, "author") {
        SortBy::Author
    } else if same_chars(&n, "p") || same_chars(&n, "pages") {
        SortBy::Pages
    } else if same_chars(&n, "s") || same_chars(&n, "series") {
        SortBy::Series
    } else {
        SortBy::Date
    }
}

/// The sort key named by a command-line option, in any letter case:
/// `date`/`d`, `read`/`r`, `title`/`t`, `author`/`a`, `pages`/`p`,
/// `series`/`s`; `Date` for anything else.
pub fn parse_sorting_option(sort_str: &str) -> (r: SortBy)
    ensures
        r == sort_option(lower_of(sort_str@)),
{
    let lower = lowercase(sort_str);
    sort_by_name(lower.as_str())
}

} // verus!
