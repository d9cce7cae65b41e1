//! Splitting text into lines and lines into delimited fields.

use vstd::prelude::*;

verus! {

/// The column delimiter `"  /"` starts at position `i` of `s`.
pub open spec fn delim_at(s: Seq<char>, i: int) -> bool {
    0 <= i && i + 2 < s.len() && s[i] == ' ' && s[i + 1] == ' ' && s[i + 2] == '/'
}

/// The column delimiter, two spaces and a slash.
pub open spec fn delim() -> Seq<char> {
    seq![' ', ' ', '/']
}

/// `s` holds no column delimiter.
pub open spec fn no_delim(s: Seq<char>) -> bool {
    forall|i: int| !delim_at(s, i)
}

/// `xs` with `p` put in front of its first piece.
pub open spec fn prepend(p: Seq<char>, xs: Seq<Seq<char>>) -> Seq<Seq<char>> {
    xs.update(0, p + xs[0])
}

/// The pieces of `s` between delimiters, found leftmost first without overlap:
/// one more piece than there are delimiters.
pub open spec fn split_delim(s: Seq<char>) -> Seq<Seq<char>>
    decreases s.len(),
{
    if s.len() == 0 {
        seq![Seq::<char>::empty()]
    } else if delim_at(s, 0) {
        seq![Seq::<char>::empty()] + split_delim(s.subrange(3, s.len() as int))
    } else {
        prepend(seq![s[0]], split_delim(s.drop_first()))
    }
}

/// The pieces of `s` between newlines: one more piece than there are newlines.
pub open spec fn split_lines(s: Seq<char>) -> Seq<Seq<char>>
    decreases s.len(),
{
    if s.len() == 0 {
        seq![Seq::<char>::empty()]
    } else if s[0] == '\n' {
        seq![Seq::<char>::empty()] + split_lines(s.drop_first())
    } else {
        prepend(seq![s[0]], split_lines(s.drop_first()))
    }
}

pub proof fn lemma_split_delim_nonempty(s: Seq<char>)
    ensures
        split_delim(s).len() >= 1,
    decreases s.len(),
{
    if s.len() > 0 {
        if delim_at(s, 0) {
            lemma_split_delim_nonempty(s.subrange(3, s.len() as int));
        } else {
            lemma_split_delim_nonempty(s.drop_first());
        }
    }
}

pub proof fn lemma_split_lines_nonempty(s: Seq<char>)
    ensures
        split_lines(s).len() >= 1,
    decreases s.len(),
{
    if s.len() > 0 {
        lemma_split_lines_nonempty(s.drop_first());
    }
}

proof fn lemma_prepend_prepend(a: Seq<char>, b: Seq<char>, xs: Seq<Seq<char>>)
    requires
        xs.len() >= 1,
    ensures
        prepend(a, prepend(b, xs)) == prepend(a + b, xs),
{
    assert(a + (b + xs[0]) =~= (a + b) + xs[0]);
    assert(prepend(a, prepend(b, xs)) =~= prepend(a + b, xs));
}

/// The pieces that the ranges `r` cut out of `v`.
pub open spec fn range_texts(v: Seq<char>, r: Seq<(usize, usize)>) -> Seq<Seq<char>> {
    r.map_values(|x: (usize, usize)| v.subrange(x.0 as int, x.1 as int))
}

/// Every range of `r` lies within `v[lo..hi]`.
pub open spec fn ranges_within(r: Seq<(usize, usize)>, lo: int, hi: int) -> bool {
    forall|k: int| 0 <= k < r.len() ==> lo <= (#[trigger] r[k]).0 <= r[k].1 <= hi
}

/// The ranges of the lines of `v[lo..hi]`.
pub fn line_ranges(v: &Vec<char>, lo: usize, hi: usize) -> (r: Vec<(usize, usize)>)
    requires
        lo <= hi <= v.len(),
    ensures
        ranges_within(r@, lo as int, hi as int),
        range_texts(v@, r@) == split_lines(v@.subrange(lo as int, hi as int)),
{
    let ghost s = v@.subrange(lo as int, hi as int);
    let mut out: Vec<(usize, usize)> = Vec::new();
    let mut start = lo;
    let mut i = lo;
    assert(v@.subrange(lo as int, lo as int) + v@.subrange(lo as int, hi as int) =~= s);
    proof {
        lemma_split_lines_nonempty(s);
        assert(prepend(Seq::empty(), split_lines(s)) =~= split_lines(s));
    }
    while i < hi
        invariant
            lo <= start <= i <= hi <= v.len(),
            s == v@.subrange(lo as int, hi as int),
            ranges_within(out@, lo as int, hi as int),
            split_lines(s) == range_texts(v@, out@) + prepend(
                v@.subrange(start as int, i as int),
                split_lines(v@.subrange(i as int, hi as int)),
            ),
        decreases hi - i,
    {
        let ghost rest = v@.subrange(i as int, hi as int);
        assert(rest.drop_first() =~= v@.subrange(i + 1, hi as int));
        proof {
            lemma_split_lines_nonempty(rest.drop_first());
        }
        if v[i] == '\n' {
            let ghost before = range_texts(v@, out@);
            out.push((start, i));
            assert(range_texts(v@, out@) =~= before.push(v@.subrange(start as int, i as int)));
            assert(split_lines(s) =~= range_texts(v@, out@) + prepend(
                v@.subrange(i + 1, i + 1),
                split_lines(v@.subrange(i + 1, hi as int)),
            ));
            i = i + 1;
            start = i;
        } else {
            proof {
                lemma_prepend_prepend(
                    v@.subrange(start as int, i as int),
                    seq![v[i as int]],
                    split_lines(rest.drop_first()),
                );
                assert(v@.subrange(start as int, i as int) + seq![v[i as int]] =~= v@.subrange(
                    start as int,
                    i + 1,
                ));
            }
            i = i + 1;
        }
    }
    let ghost before = range_texts(v@, out@);
    out.push((start, hi));
    assert(range_texts(v@, out@) =~= before.push(v@.subrange(start as int, hi as int)));
    assert(v@.subrange(hi as int, hi as int) =~= Seq::<char>::empty());
    assert(split_lines(s) =~= range_texts(v@, out@));
    out
}

/// The ranges of the delimited fields of `v[lo..hi]`.
pub fn field_ranges(v: &Vec<char>, lo: usize, hi: usize) -> (r: Vec<(usize, usize)>)
    requires
        lo <= hi <= v.len(),
    ensures
        ranges_within(r@, lo as int, hi as int),
        range_texts(v@, r@) == split_delim(v@.subrange(lo as int, hi as int)),
{
    let ghost s = v@.subrange(lo as int, hi as int);
    let mut out: Vec<(usize, usize)> = Vec::new();
    let mut start = lo;
    let mut i = lo;
    proof {
        lemma_split_delim_nonempty(s);
        assert(prepend(Seq::empty(), split_delim(s)) =~= split_delim(s));
        assert(v@.subrange(lo as int, lo as int) =~= Seq::<char>::empty());
    }
    while i < hi
        invariant
            lo <= start <= i <= hi <= v.len(),
            s == v@.subrange(lo as int, hi as int),
            ranges_within(out@, lo as int, hi as int),
            split_delim(s) == range_texts(v@, out@) + prepend(
                v@.subrange(start as int, i as int),
                split_delim(v@.subrange(i as int, hi as int)),
            ),
        decreases hi - i,
    {
        let ghost rest = v@.subrange(i as int, hi as int);
        if hi - i >= 3 && v[i] == ' ' && v[i + 1] == ' ' && v[i + 2] == '/' {
            assert(delim_at(rest, 0));
            assert(rest.subrange(3, rest.len() as int) =~= v@.subrange(i + 3, hi as int));
            proof {
                lemma_split_delim_nonempty(rest.subrange(3, rest.len() as int));
            }
            let ghost before = range_texts(v@, out@);
            out.push((start, i));
            assert(range_texts(v@, out@) =~= before.push(v@.subrange(start as int, i as int)));
            assert(v@.subrange(i + 3, i + 3) =~= Seq::<char>::empty());
            assert(split_delim(s) =~= range_texts(v@, out@) + prepend(
                v@.subrange(i + 3, i + 3),
                split_delim(v@.subrange(i + 3, hi as int)),
            ));
            i = i + 3;
            start = i;
        } else {
            assert(!delim_at(rest, 0));
            assert(rest.drop_first() =~= v@.subrange(i + 1, hi as int));
            proof {
                lemma_split_delim_nonempty(rest.drop_first());
                lemma_prepend_prepend(
                    v@.subrange(start as int, i as int),
                    seq![v[i as int]],
                    split_delim(rest.drop_first()),
                );
                assert(v@.subrange(start as int, i as int) + seq![v[i as int]] =~= v@.subrange(
                    start as int,
                    i + 1,
                ));
            }
            i = i + 1;
        }
    }
    let ghost before = range_texts(v@, out@);
    out.push((start, hi));
    assert(range_texts(v@, out@) =~= before.push(v@.subrange(start as int, hi as int)));
    assert(v@.subrange(hi as int, hi as int) =~= Seq::<char>::empty());
    assert(split_delim(s) =~= range_texts(v@, out@));
    out
}

} // verus!
