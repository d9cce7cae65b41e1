//! Properties that relate several operations of the library.

use vstd::prelude::*;
use crate::book::{key_le, BookView, SortBy};
use crate::reconcile::{add_new, has_path, listed, reconciled};
use crate::sort::{sort_outcome, stable_witness};
use crate::codec::{catalog_ok, data_lines, decoded, encoded, line_ok, line_record, well_formed_book};
use crate::pages::{page_estimate, sections_len};
use crate::split::split_delim;
use crate::text::{parse_unsigned, trim};
use crate::roundtrip::lemma_round_trip;

verus! {

proof fn lemma_has_path_push(s: Seq<BookView>, e: BookView, x: Seq<char>)
    ensures
        has_path(s.push(e), x) == (has_path(s, x) || e.path == x),
{
    if has_path(s, x) {
        let i = choose|i: int| 0 <= i < s.len() && (#[trigger] s[i]).path == x;
        assert(s.push(e)[i] == s[i]);
    }
    if e.path == x {
        assert(s.push(e)[s.len() as int] == e);
    }
    if has_path(s.push(e), x) {
        let i = choose|i: int| 0 <= i < s.push(e).len() && (#[trigger] s.push(e)[i]).path == x;
        if i < s.len() {
            assert(s[i] == s.push(e)[i]);
        }
    }
}

proof fn lemma_has_path_last(s: Seq<BookView>, x: Seq<char>)
    requires
        s.len() > 0,
    ensures
        has_path(s, x) == (has_path(s.drop_last(), x) || s.last().path == x),
{
    assert(s =~= s.drop_last().push(s.last()));
    lemma_has_path_push(s.drop_last(), s.last(), x);
}

proof fn lemma_add_new_paths(p: Seq<BookView>, n: Seq<BookView>, x: Seq<char>)
    ensures
        has_path(add_new(p, n), x) == (has_path(p, x) || has_path(n, x)),
    decreases n.len(),
{
    if n.len() > 0 {
        let m = add_new(p, n.drop_last());
        lemma_add_new_paths(p, n.drop_last(), x);
        lemma_has_path_last(n, x);
        lemma_has_path_push(m, n.last(), x);
        if has_path(m, n.last().path) && n.last().path == x {
        }
    }
}

proof fn lemma_listed_paths(bs: Seq<BookView>, d: Seq<Seq<char>>, x: Seq<char>)
    ensures
        has_path(listed(bs, d), x) == (has_path(bs, x) && d.contains(x)),
    decreases bs.len(),
{
    if bs.len() > 0 {
        lemma_listed_paths(bs.drop_last(), d, x);
        lemma_has_path_last(bs, x);
        lemma_has_path_push(listed(bs.drop_last(), d), bs.last(), x);
    }
}

/// Every book that `listed` keeps has its path among `d`.
proof fn lemma_listed_in_scan(bs: Seq<BookView>, d: Seq<Seq<char>>)
    ensures
        forall|i: int| 0 <= i < listed(bs, d).len() ==> d.contains(#[trigger] listed(bs, d)[i].path),
    decreases bs.len(),
{
    if bs.len() > 0 {
        lemma_listed_in_scan(bs.drop_last(), d);
        let m = listed(bs.drop_last(), d);
        assert forall|i: int| 0 <= i < listed(bs, d).len() implies d.contains(
            #[trigger] listed(bs, d)[i].path,
        ) by {
            if i < m.len() {
                assert(listed(bs, d)[i] == m[i]);
            }
        }
    }
}

/// Reconciliation keeps exactly the paths that were discovered and that the
/// catalog held or a book was created for; no path of the result is missing
/// from the scan.
pub proof fn lemma_reconciled_paths(
    persisted: Seq<BookView>,
    discovered: Seq<Seq<char>>,
    created: Seq<BookView>,
)
    ensures
        forall|x: Seq<char>|
            #[trigger] has_path(reconciled(persisted, discovered, created), x) <==> discovered.contains(x)
                && (has_path(persisted, x) || has_path(created, x)),
        forall|i: int|
            0 <= i < reconciled(persisted, discovered, created).len() ==> discovered.contains(
                #[trigger] reconciled(persisted, discovered, created)[i].path,
            ),
{
    assert forall|x: Seq<char>|
        #[trigger] has_path(reconciled(persisted, discovered, created), x) <==> discovered.contains(x)
            && (has_path(persisted, x) || has_path(created, x)) by {
        lemma_listed_paths(add_new(persisted, created), discovered, x);
        lemma_add_new_paths(persisted, created, x);
    }
    lemma_listed_in_scan(add_new(persisted, created), discovered);
}

/// `bs` sorted in descending order of `by`, books with tied keys in the
/// reverse of their order in `s`, as witnessed by `p`.
pub open spec fn descending_witness(s: Seq<BookView>, r: Seq<BookView>, p: Seq<int>, by: SortBy) -> bool {
    &&& r.len() == s.len()
    &&& p.len() == s.len()
    &&& forall|i: int| 0 <= i < r.len() ==> 0 <= #[trigger] p[i] < s.len() && r[i] == s[p[i]]
    &&& forall|i: int, j: int| 0 <= i < j < r.len() ==> p[i] != p[j]
    &&& forall|i: int, j: int| 0 <= i < j < r.len() ==> key_le(r[j], r[i], by)
    &&& forall|i: int, j: int| 0 <= i < j < r.len() && key_le(r[i], r[j], by) ==> p[i] > p[j]
}

/// `r` is `s` sorted in descending order of `by`, ties in reverse input order.
pub open spec fn sorts_descending(s: Seq<BookView>, r: Seq<BookView>, by: SortBy) -> bool {
    exists|p: Seq<int>| descending_witness(s, r, p, by)
}

/// Sorting ascending and then reversing gives the descending order, with
/// books whose keys tie in the opposite of the order the ascending pass
/// gives them.
pub proof fn lemma_reverse_sort_descends(s: Seq<BookView>, r: Seq<BookView>, by: SortBy)
    requires
        sort_outcome(s, r, by, true),
    ensures
        sorts_descending(s, r, by),
{
    let a = r.reverse();
    let p = choose|p: Seq<int>| stable_witness(s, a, p, by);
    let n = r.len() as int;
    let q = p.reverse();
    assert forall|i: int| 0 <= i < n implies r[i] == a[n - 1 - i] && q[i] == p[n - 1 - i] by {}
    assert forall|i: int| 0 <= i < r.len() implies 0 <= #[trigger] q[i] < s.len() && r[i] == s[q[i]] by {
        assert(0 <= p[n - 1 - i] < s.len());
    }
    assert forall|i: int, j: int| 0 <= i < j < r.len() implies q[i] != q[j] by {
        assert(p[n - 1 - j] != p[n - 1 - i]);
    }
    assert forall|i: int, j: int| 0 <= i < j < r.len() implies key_le(r[j], r[i], by) by {
        assert(key_le(a[n - 1 - j], a[n - 1 - i], by));
    }
    assert forall|i: int, j: int| 0 <= i < j < r.len() && key_le(r[i], r[j], by) implies q[i]
        > q[j] by {
        assert(key_le(a[n - 1 - i], a[n - 1 - j], by));
    }
    assert(descending_witness(s, r, q, by));
}

/// Books with pairwise distinct paths.
pub open spec fn distinct_paths(bs: Seq<BookView>) -> bool {
    forall|i: int, j: int| 0 <= i < j < bs.len() ==> bs[i].path != bs[j].path
}

proof fn lemma_add_new_fresh(n: Seq<BookView>)
    requires
        distinct_paths(n),
    ensures
        add_new(Seq::empty(), n) == n,
    decreases n.len(),
{
    if n.len() > 0 {
        lemma_add_new_fresh(n.drop_last());
        assert(add_new(Seq::empty(), n.drop_last()) == n.drop_last());
        if has_path(n.drop_last(), n.last().path) {
            let i = choose|i: int| 0 <= i < n.drop_last().len() && (#[trigger] n.drop_last()[i]).path
                == n.last().path;
            assert(n[i].path != n[n.len() - 1].path);
        }
        assert(n.drop_last().push(n.last()) =~= n);
    }
}

/// `listed` keeps every book when all their paths were discovered.
pub proof fn lemma_listed_all(bs: Seq<BookView>, d: Seq<Seq<char>>)
    requires
        forall|i: int| 0 <= i < bs.len() ==> d.contains(#[trigger] bs[i].path),
    ensures
        listed(bs, d) == bs,
    decreases bs.len(),
{
    if bs.len() > 0 {
        lemma_listed_all(bs.drop_last(), d);
        assert(bs.drop_last().push(bs.last()) =~= bs);
        assert(d.contains(bs[bs.len() - 1].path));
    }
}

/// With no catalog yet (an empty text, as for a missing file), reading it
/// succeeds with no books, and the result is exactly the books created for
/// the discovered files.
pub proof fn lemma_fresh_catalog(discovered: Seq<Seq<char>>, created: Seq<BookView>)
    requires
        distinct_paths(created),
        forall|i: int| 0 <= i < created.len() ==> discovered.contains(#[trigger] created[i].path),
    ensures
        catalog_ok(Seq::empty()),
        decoded(Seq::empty()) == Seq::<BookView>::empty(),
        reconciled(decoded(Seq::empty()), discovered, created) == created,
{
    assert(data_lines(Seq::empty()) =~= Seq::<Seq<char>>::empty());
    lemma_add_new_fresh(created);
    lemma_listed_all(created, discovered);
}

proof fn lemma_add_new_from(p: Seq<BookView>, n: Seq<BookView>)
    ensures
        forall|i: int| 0 <= i < add_new(p, n).len() ==> p.contains(#[trigger] add_new(p, n)[i])
            || n.contains(add_new(p, n)[i]),
    decreases n.len(),
{
    if n.len() > 0 {
        lemma_add_new_from(p, n.drop_last());
        let m = add_new(p, n.drop_last());
        assert forall|i: int| 0 <= i < add_new(p, n).len() implies p.contains(
            #[trigger] add_new(p, n)[i],
        ) || n.contains(add_new(p, n)[i]) by {
            if i < m.len() {
                assert(add_new(p, n)[i] == m[i]);
                if n.drop_last().contains(m[i]) {
                    let j = choose|j: int| 0 <= j < n.drop_last().len() && n.drop_last()[j] == m[i];
                    assert(n[j] == m[i]);
                }
            } else {
                assert(n[n.len() - 1] == add_new(p, n)[i]);
            }
        }
    }
}

proof fn lemma_listed_from(bs: Seq<BookView>, d: Seq<Seq<char>>)
    ensures
        forall|i: int| 0 <= i < listed(bs, d).len() ==> bs.contains(#[trigger] listed(bs, d)[i]),
    decreases bs.len(),
{
    if bs.len() > 0 {
        lemma_listed_from(bs.drop_last(), d);
        let m = listed(bs.drop_last(), d);
        assert forall|i: int| 0 <= i < listed(bs, d).len() implies bs.contains(
            #[trigger] listed(bs, d)[i],
        ) by {
            if i < m.len() {
                assert(listed(bs, d)[i] == m[i]);
                let j = choose|j: int| 0 <= j < bs.drop_last().len() && bs.drop_last()[j] == m[i];
                assert(bs[j] == m[i]);
            } else {
                assert(bs[bs.len() - 1] == listed(bs, d)[i]);
            }
        }
    }
}

/// Loading twice with nothing changed on disk: the first result is written,
/// read back unchanged, and the second load (which finds no new file, as any
/// file whose metadata could not be read the first time still cannot) holds
/// the same books with the same fields, timestamps included.
pub proof fn lemma_load_twice(
    persisted: Seq<BookView>,
    discovered: Seq<Seq<char>>,
    created: Seq<BookView>,
    by: SortBy,
    reverse: bool,
    first: Seq<BookView>,
    second: Seq<BookView>,
)
    requires
        forall|i: int| 0 <= i < persisted.len() ==> well_formed_book(#[trigger] persisted[i]),
        forall|i: int| 0 <= i < created.len() ==> well_formed_book(#[trigger] created[i]),
        sort_outcome(reconciled(persisted, discovered, created), first, by, reverse),
        sort_outcome(
            reconciled(decoded(encoded(first)), discovered, Seq::empty()),
            second,
            by,
            reverse,
        ),
    ensures
        catalog_ok(encoded(first)),
        decoded(encoded(first)) == first,
        second.to_multiset() == first.to_multiset(),
{
    broadcast use vstd::seq_lib::group_to_multiset_ensures;

    let r = reconciled(persisted, discovered, created);
    lemma_add_new_from(persisted, created);
    lemma_listed_from(add_new(persisted, created), discovered);
    lemma_reconciled_paths(persisted, discovered, created);
    assert forall|i: int| 0 <= i < first.len() implies well_formed_book(#[trigger] first[i])
        && discovered.contains(first[i].path) by {
        assert(first.to_multiset().count(first[i]) > 0);
        assert(r.contains(first[i]));
        let j = choose|j: int| 0 <= j < r.len() && r[j] == first[i];
        let a = add_new(persisted, created);
        assert(a.contains(r[j]));
        let k = choose|k: int| 0 <= k < a.len() && a[k] == r[j];
        if persisted.contains(a[k]) {
            let m = choose|m: int| 0 <= m < persisted.len() && persisted[m] == a[k];
            assert(well_formed_book(persisted[m]));
        } else {
            assert(created.contains(a[k]));
            let m = choose|m: int| 0 <= m < created.len() && created[m] == a[k];
            assert(well_formed_book(created[m]));
        }
        assert(discovered.contains(r[j].path));
    }
    lemma_round_trip(first);
    assert(add_new(first, Seq::empty()) == first);
    lemma_listed_all(first, discovered);
}

/// The page estimate is the newline-free character count divided by 2000,
/// rounded down, however the text is spread over sections: 4000 characters
/// make two pages and 3999 make one.
pub proof fn lemma_page_estimate(sections: Seq<Seq<char>>)
    ensures
        page_estimate(sections) == sections_len(sections) / 2000,
        sections_len(sections) == 4000 ==> page_estimate(sections) == 2,
        sections_len(sections) == 3999 ==> page_estimate(sections) == 1,
{
}

/// A record line whose pages field is not a number still reads, with zero
/// pages; the other fields are read as usual.
pub proof fn lemma_malformed_pages(line: Seq<char>)
    requires
        split_delim(line).len() >= 7,
        parse_unsigned(trim(split_delim(line)[4]), usize::MAX as nat) is None,
    ensures
        line_ok(line),
        line_record(line).pages == 0,
{
}

} // verus!
