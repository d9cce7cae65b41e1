//! The page counter: an approximate page count from a book's text.

use vstd::prelude::*;
use crate::text::texts;

verus! {

/// Characters that make up one page.
pub const CHARS_PER_PAGE: usize = 2000;

/// The number of characters of `s` that are not newlines.
pub open spec fn text_len(s: Seq<char>) -> nat
    decreases s.len(),
{
    if s.len() == 0 {
        0
    } else {
        text_len(s.drop_last()) + if s.last() == '\n' {
            0nat
        } else {
            1nat
        }
    }
}

/// The newline-free character count of all sections together.
pub open spec fn sections_len(sections: Seq<Seq<char>>) -> nat
    decreases sections.len(),
{
    if sections.len() == 0 {
        0
    } else {
        sections_len(sections.drop_last()) + text_len(sections.last())
    }
}

/// The page estimate for the given sections.
pub open spec fn page_estimate(sections: Seq<Seq<char>>) -> nat {
    sections_len(sections) / (CHARS_PER_PAGE as nat)
}

proof fn lemma_text_len_prefix(s: Seq<char>, k: int)
    requires
        0 <= k <= s.len(),
    ensures
        text_len(s.take(k)) <= text_len(s),
    decreases s.len() - k,
{
    if k < s.len() {
        lemma_text_len_prefix(s, k + 1);
        assert(s.take(k + 1).drop_last() =~= s.take(k));
    } else {
        assert(s.take(k) =~= s);
    }
}

proof fn lemma_sections_len_prefix(s: Seq<Seq<char>>, k: int)
    requires
        0 <= k <= s.len(),
    ensures
        sections_len(s.take(k)) <= sections_len(s),
    decreases s.len() - k,
{
    if k < s.len() {
        lemma_sections_len_prefix(s, k + 1);
        assert(s.take(k + 1).drop_last() =~= s.take(k));
    } else {
        assert(s.take(k) =~= s);
    }
}

/// The number of characters of `s` that are not newlines.
pub fn count_text_chars(s: &str) -> (r: usize)
    requires
        text_len(s@) <= usize::MAX,
    ensures
        r == text_len(s@),
{
    let mut n: usize = 0;
    for c in it: s.chars()
        invariant
            it.seq() == s@,
            text_len(s@) <= usize::MAX,
            n == text_len(it.seq().take(it.index() as int)),
    {
        proof {
            let i = it.index() as int;
            assert(s@.take(i + 1).drop_last() =~= s@.take(i));
            lemma_text_len_prefix(s@, i + 1);
        }
        if c != '\n' {
            n = n + 1;
        }
    }
    assert(s@.take(s@.len() as int) =~= s@);
    n
}

/// Approximate page count of a book from the text of its sections: all
/// characters but newlines, counted over every section, divided by
/// `CHARS_PER_PAGE` and rounded down.
pub fn estimate_pages(sections: &Vec<String>) -> (r: usize)
    requires
        sections_len(texts(sections@)) <= usize::MAX,
    ensures
        r == page_estimate(texts(sections@)),
{
    let ghost t = texts(sections@);
    let mut total: usize = 0;
    let mut i: usize = 0;
    while i < sections.len()
        invariant
            i <= sections.len(),
            t == texts(sections@),
            sections_len(t) <= usize::MAX,
            total == sections_len(t.take(i as int)),
        decreases sections.len() - i,
    {
        proof {
            assert(t.take(i + 1).drop_last() =~= t.take(i as int));
            lemma_sections_len_prefix(t, i + 1);
            lemma_text_len_prefix(t[i as int], t[i as int].len() as int);
            assert(t[i as int].take(t[i as int].len() as int) =~= t[i as int]);
        }
        let n = count_text_chars(sections[i].as_str());
        total = total + n;
        i = i + 1;
    }
    assert(t.take(sections.len() as int) =~= t);
    total / CHARS_PER_PAGE
}

/// Whether the newline-free character count of all sections fits in a
/// `usize`, as `estimate_pages` requires.
pub fn text_len_fits(sections: &Vec<String>) -> (r: bool)
    ensures
        r == (sections_len(texts(sections@)) <= usize::MAX),
{
    let ghost t = texts(sections@);
    let mut total: u128 = 0;
    let mut i: usize = 0;
    while i < sections.len()
        invariant
            i <= sections.len(),
            t == texts(sections@),
            t.len() == sections.len(),
            total == sections_len(t.take(i as int)),
            total <= usize::MAX,
        decreases sections.len() - i,
    {
        let ghost before = total;
        proof {
            assert(t.take(i + 1).drop_last() =~= t.take(i as int));
            lemma_sections_len_prefix(t, i + 1);
        }
        let section: &str = sections[i].as_str();
        for c in it: section.chars()
            invariant
                it.seq() == t[i as int],
                section@ == t[i as int],
                t == texts(sections@),
                t.len() == sections.len(),
                total == before + text_len(it.seq().take(it.index() as int)),
                total <= usize::MAX,
                before == sections_len(t.take(i as int)),
                before + text_len(t[i as int]) <= sections_len(t),
                i < sections.len(),
        {
            let ghost j = it.index() as int;
            proof {
                assert(t[i as int].take(j + 1).drop_last() =~= t[i as int].take(j));
                assert(t[i as int].take(j + 1).last() == c);
                lemma_text_len_prefix(t[i as int], j + 1);
            }
            if c != '\n' {
                total = total + 1;
                if total > usize::MAX as u128 {
                    assert(total == before + text_len(t[i as int].take(j + 1)));
                    return false;
                }
            }
        }
        assert(t[i as int].take(t[i as int].len() as int) =~= t[i as int]);
        i = i + 1;
    }
    assert(t.take(i as int) =~= t);
    true
}

} // verus!
