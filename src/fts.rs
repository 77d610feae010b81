//! Text search terms: turning a query into prefix terms, and matching a term
//! at the start of a word of a field.

use vstd::prelude::*;
use crate::text::{alnum_char, chars_of, is_alnum, lower_of, lowercase, split_words, string_of, views, words, non_empty};

verus! {

/// A character that text search keeps in a term: alphanumeric, `-`, `_` or `.`.
pub open spec fn term_char(c: char) -> bool {
    alnum_char(c) || c == '-' || c == '_' || c == '.'
}

/// `w` with every character that is not a term character removed.
pub open spec fn cleaned(w: Seq<char>) -> Seq<char>
    decreases w.len(),
{
    if w.len() == 0 {
        Seq::empty()
    } else if term_char(w.last()) {
        cleaned(w.drop_last()).push(w.last())
    } else {
        cleaned(w.drop_last())
    }
}

/// The cleaned words of `ws`.
pub open spec fn cleaned_all(ws: Seq<Seq<char>>) -> Seq<Seq<char>>
    decreases ws.len(),
{
    if ws.len() == 0 {
        Seq::empty()
    } else {
        cleaned_all(ws.drop_last()).push(cleaned(ws.last()))
    }
}

/// The search terms of a query: its whitespace-separated words, cleaned,
/// with those that end up empty dropped.
pub open spec fn query_terms(q: Seq<char>) -> Seq<Seq<char>> {
    non_empty(cleaned_all(words(q)))
}

/// The terms, each followed by `*`, joined by single spaces.
pub open spec fn prefix_query(ts: Seq<Seq<char>>) -> Seq<char>
    decreases ts.len(),
{
    if ts.len() == 0 {
        Seq::empty()
    } else if ts.len() == 1 {
        ts[0].push('*')
    } else {
        prefix_query(ts.drop_last()) + seq![' '] + ts.last().push('*')
    }
}

/// The terms, each lower-cased.
pub open spec fn lowered_all(ts: Seq<Seq<char>>) -> Seq<Seq<char>>
    decreases ts.len(),
{
    if ts.len() == 0 {
        Seq::empty()
    } else {
        lowered_all(ts.drop_last()).push(lower_of(ts.last()))
    }
}

/// `t` occurs in `hay` at the start of a word: at the beginning, or right
/// after a character that is not a term character.
pub open spec fn word_prefix(hay: Seq<char>, t: Seq<char>) -> bool {
    exists|i: int| 0 <= i && i + t.len() <= hay.len() && #[trigger] hay.subrange(i, i + t.len()) == t
        && (i == 0 || !term_char(hay[i - 1]))
}

/// Whether a character is kept in a search term.
fn is_term_char(c: char) -> (r: bool)
    ensures
        r == term_char(c),
{
    c == '-' || c == '_' || c == '.' || is_alnum(c)
}

/// The search terms of `query`.
pub fn query_term_chars(query: &str) -> (r: Vec<Vec<char>>)
    ensures
        views(r@) == query_terms(query@),
{
    let ws = split_words(chars_of(query).as_slice());
    let mut cl: Vec<Vec<char>> = Vec::new();
    let mut i: usize = 0;
    while i < ws.len()
        invariant
            i <= ws@.len(),
            views(cl@) == cleaned_all(views(ws@).subrange(0, i as int)),
        decreases ws@.len() - i,
    {
        assert(views(ws@).subrange(0, i + 1).drop_last() =~= views(ws@).subrange(0, i as int));
        assert(views(ws@)[i as int] == ws@[i as int]@);
        let w = &ws[i];
        let mut c: Vec<char> = Vec::new();
        let mut j: usize = 0;
        while j < w.len()
            invariant
                j <= w@.len(),
                c@ == cleaned(w@.subrange(0, j as int)),
            decreases w@.len() - j,
        {
            assert(w@.subrange(0, j + 1).drop_last() =~= w@.subrange(0, j as int));
            if is_term_char(w[j]) {
                c.push(w[j]);
            }
            j = j + 1;
        }
        assert(w@.subrange(0, w@.len() as int) =~= w@);
        let ghost prev = views(cl@);
        cl.push(c);
        assert(views(cl@) =~= prev.push(cleaned(w@)));
        i = i + 1;
    }
    assert(views(ws@).subrange(0, ws@.len() as int) =~= views(ws@));
    let mut r: Vec<Vec<char>> = Vec::new();
    let mut k: usize = 0;
    while k < cl.len()
        invariant
            k <= cl@.len(),
            views(r@) == non_empty(views(cl@).subrange(0, k as int)),
        decreases cl@.len() - k,
    {
        assert(views(cl@).subrange(0, k + 1).drop_last() =~= views(cl@).subrange(0, k as int));
        assert(views(cl@)[k as int] == cl@[k as int]@);
        if cl[k].len() > 0 {
            let t = cl[k].clone();
            let ghost prev = views(r@);
            r.push(t);
            assert(views(r@) =~= prev.push(cl@[k as int]@));
        }
        k = k + 1;
    }
    assert(views(cl@).subrange(0, cl@.len() as int) =~= views(cl@));
    r
}

/// The prefix query for `query`: its terms each followed by `*`, joined by
/// spaces; `None` where no term is left.
pub fn build_fts_query(query: &str) -> (r: Option<String>)
    ensures
        r is None <==> query_terms(query@).len() == 0,
        r matches Some(s) ==> s@ == prefix_query(query_terms(query@)),
{
    let ts = query_term_chars(query);
    if ts.len() == 0 {
        return None;
    }
    let ghost tv = views(ts@);
    let mut out: Vec<char> = Vec::new();
    let mut k: usize = 0;
    while k < ts.len()
        invariant
            k <= ts@.len(),
            tv == views(ts@),
            out@ == prefix_query(tv.subrange(0, k as int)),
        decreases ts@.len() - k,
    {
        assert(tv.subrange(0, k + 1).drop_last() =~= tv.subrange(0, k as int));
        assert(tv[k as int] == ts@[k as int]@);
        if k > 0 {
            out.push(' ');
        }
        let ghost before = out@;
        let t = &ts[k];
        let mut c: usize = 0;
        while c < t.len()
            invariant
                c <= t@.len(),
                out@ == before + t@.subrange(0, c as int),
            decreases t@.len() - c,
        {
            out.push(t[c]);
            c = c + 1;
            assert(out@ =~= before + t@.subrange(0, c as int));
        }
        out.push('*');
        assert(t@.subrange(0, t@.len() as int) =~= t@);
        k = k + 1;
        assert(out@ =~= prefix_query(tv.subrange(0, k as int)));
    }
    assert(tv.subrange(0, tv.len() as int) =~= tv);
    Some(string_of(out.as_slice()))
}

/// The search terms of `query`, lower-cased.
pub fn lowered_terms(query: &str) -> (r: Vec<Vec<char>>)
    ensures
        views(r@) == lowered_all(query_terms(query@)),
{
    let ts = query_term_chars(query);
    let ghost tv = views(ts@);
    let mut r: Vec<Vec<char>> = Vec::new();
    let mut k: usize = 0;
    while k < ts.len()
        invariant
            k <= ts@.len(),
            tv == views(ts@),
            views(r@) == lowered_all(tv.subrange(0, k as int)),
        decreases ts@.len() - k,
    {
        assert(tv.subrange(0, k + 1).drop_last() =~= tv.subrange(0, k as int));
        assert(tv[k as int] == ts@[k as int]@);
        let l = chars_of(lowercase(string_of(ts[k].as_slice()).as_str()).as_str());
        let ghost prev = views(r@);
        r.push(l);
        assert(views(r@) =~= prev.push(lower_of(tv[k as int])));
        k = k + 1;
    }
    assert(tv.subrange(0, tv.len() as int) =~= tv);
    r
}

/// Whether `t` occurs in `hay` at the start of a word.
pub fn has_word_prefix(hay: &[char], t: &[char]) -> (r: bool)
    ensures
        r == word_prefix(hay@, t@),
{
    if t.len() > hay.len() {
        return false;
    }
    let last = hay.len() - t.len();
    let mut i: usize = 0;
    while i <= last
        invariant
            last + t@.len() == hay@.len(),
            i <= last + 1,
            last < usize::MAX || t@.len() == 0,
            forall|k: int| 0 <= k < i ==> !(#[trigger] hay@.subrange(k, k + t@.len()) == t@
                && (k == 0 || !term_char(hay@[k - 1]))),
        decreases last + 1 - i,
    {
        let start_ok = i == 0 || !is_term_char(hay[i - 1]);
        if start_ok && crate::text::matches_at(hay, t, i) {
            return true;
        }
        if i == last {
            return false;
        }
        i = i + 1;
    }
    false
}

} // verus!
