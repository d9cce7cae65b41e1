//! The reconciler: merges the books of a catalog with the files found by a
//! directory scan.

use vstd::prelude::*;
use crate::book::{views, Book, BookView, SortBy};
use crate::text::texts;
use crate::sort::{sort_library, sort_outcome};

verus! {

/// Some book of `bs` has the path `path`.
pub open spec fn has_path(bs: Seq<BookView>, path: Seq<char>) -> bool {
    exists|i: int| 0 <= i < bs.len() && (#[trigger] bs[i]).path == path
}

/// `bs` with the books of `created` appended in order, each one only when no
/// book already there has its path.
pub open spec fn add_new(bs: Seq<BookView>, created: Seq<BookView>) -> Seq<BookView>
    decreases created.len(),
{
    if created.len() == 0 {
        bs
    } else {
        let m = add_new(bs, created.drop_last());
        if has_path(m, created.last().path) {
            m
        } else {
            m.push(created.last())
        }
    }
}

/// The books of `bs` whose path is among `discovered`, in order.
pub open spec fn listed(bs: Seq<BookView>, discovered: Seq<Seq<char>>) -> Seq<BookView>
    decreases bs.len(),
{
    if bs.len() == 0 {
        bs
    } else {
        let m = listed(bs.drop_last(), discovered);
        if discovered.contains(bs.last().path) {
            m.push(bs.last())
        } else {
            m
        }
    }
}

/// The catalog after a scan: the persisted books, then each created book
/// whose path no book had yet, keeping only the books whose file was found.
pub open spec fn reconciled(
    persisted: Seq<BookView>,
    discovered: Seq<Seq<char>>,
    created: Seq<BookView>,
) -> Seq<BookView> {
    listed(add_new(persisted, created), discovered)
}

/// The discovered paths that no book of `bs` has, in order.
pub open spec fn unknown_paths(bs: Seq<BookView>, discovered: Seq<Seq<char>>) -> Seq<Seq<char>>
    decreases discovered.len(),
{
    if discovered.len() == 0 {
        discovered
    } else {
        let m = unknown_paths(bs, discovered.drop_last());
        if has_path(bs, discovered.last()) {
            m
        } else {
            m.push(discovered.last())
        }
    }
}

/// Whether some book of `library` has the path `path`.
pub fn contains_path(library: &Vec<Book>, path: &String) -> (r: bool)
    ensures
        r == has_path(views(library@), path@),
{
    let mut i: usize = 0;
    while i < library.len()
        invariant
            i <= library.len(),
            forall|j: int| 0 <= j < i ==> (#[trigger] library@[j])@.path != path@,
        decreases library.len() - i,
    {
        if library[i].path == *path {
            assert(views(library@)[i as int].path == path@);
            return true;
        }
        i += 1;
    }
    assert forall|j: int| 0 <= j < library.len() implies (#[trigger] views(library@)[j]).path
        != path@ by {
        assert(views(library@)[j] == library@[j]@);
    }
    false
}

/// Whether `path` is one of `paths`.
pub fn path_listed(paths: &Vec<String>, path: &String) -> (r: bool)
    ensures
        r == texts(paths@).contains(path@),
{
    let mut i: usize = 0;
    while i < paths.len()
        invariant
            i <= paths.len(),
            forall|j: int| 0 <= j < i ==> (#[trigger] paths@[j])@ != path@,
        decreases paths.len() - i,
    {
        if paths[i] == *path {
            assert(texts(paths@)[i as int] == path@);
            return true;
        }
        i += 1;
    }
    assert forall|j: int| 0 <= j < paths.len() implies (#[trigger] texts(paths@)[j]) != path@ by {
        assert(texts(paths@)[j] == paths@[j]@);
    }
    false
}

/// The discovered paths that no book of `library` has yet, in order: the
/// files whose metadata must be read to create their books.
pub fn new_paths(library: &Vec<Book>, discovered: &Vec<String>) -> (r: Vec<String>)
    ensures
        texts(r@) == unknown_paths(views(library@), texts(discovered@)),
{
    let ghost d = texts(discovered@);
    let mut out: Vec<String> = Vec::new();
    let mut i: usize = 0;
    while i < discovered.len()
        invariant
            i <= discovered.len(),
            d == texts(discovered@),
            texts(out@) == unknown_paths(views(library@), d.take(i as int)),
        decreases discovered.len() - i,
    {
        assert(d.take(i + 1).drop_last() =~= d.take(i as int));
        assert(d.take(i + 1).last() == discovered@[i as int]@);
        if !contains_path(library, &discovered[i]) {
            let ghost before = texts(out@);
            out.push(discovered[i].clone());
            assert(texts(out@) =~= before.push(discovered@[i as int]@));
        }
        i += 1;
    }
    assert(d.take(i as int) =~= d);
    out
}

/// Merges a catalog with a scan: appends each book of `created` (the books
/// made for newly discovered files) unless a book with its path is already
/// there, then drops every book whose path is not among `discovered`.
pub fn reconcile(library: Vec<Book>, discovered: &Vec<String>, created: Vec<Book>) -> (r: Vec<Book>)
    ensures
        views(r@) == reconciled(views(library@), texts(discovered@), views(created@)),
{
    let ghost p = views(library@);
    let ghost n = views(created@);
    let ghost d = texts(discovered@);
    let mut merged = library;
    assert(n.take(0) =~= Seq::<BookView>::empty());
    for b in it: created
        invariant
            it.seq() == created@,
            n == views(created@),
            views(merged@) == add_new(p, n.take(it.index() as int)),
    {
        let ghost k = it.index() as int;
        assert(n.take(k + 1).drop_last() =~= n.take(k));
        assert(n.take(k + 1).last() == b@);
        if !contains_path(&merged, &b.path) {
            let ghost before = views(merged@);
            merged.push(b);
            assert(views(merged@) =~= before.push(b@));
        }
    }
    assert(n.take(n.len() as int) =~= n);
    let ghost ms = merged@;
    let ghost m = views(ms);
    let mut out: Vec<Book> = Vec::new();
    assert(m.take(0) =~= Seq::<BookView>::empty());
    for b in it: merged
        invariant
            it.seq() == ms,
            m == views(ms),
            views(out@) == listed(m.take(it.index() as int), d),
            d == texts(discovered@),
    {
        let ghost k = it.index() as int;
        assert(m.take(k + 1).drop_last() =~= m.take(k));
        assert(m.take(k + 1).last() == b@);
        if path_listed(discovered, &b.path) {
            let ghost before = views(out@);
            out.push(b);
            assert(views(out@) =~= before.push(b@));
        }
    }
    assert(m.take(m.len() as int) =~= m);
    out
}

/// The catalog after a scan, sorted: `reconcile`, then `sort_library`.
pub fn merge_library(
    library: Vec<Book>,
    discovered: &Vec<String>,
    created: Vec<Book>,
    sort_by: &SortBy,
    reverse: bool,
) -> (r: Vec<Book>)
    ensures
        sort_outcome(
            reconciled(views(library@), texts(discovered@), views(created@)),
            views(r@),
            *sort_by,
            reverse,
        ),
{
    let mut merged = reconcile(library, discovered, created);
    sort_library(&mut merged, sort_by, reverse);
    merged
}

} // verus!
