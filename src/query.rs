//! Parsing of a raw search line into query words and folder filters.

use vstd::prelude::*;
use crate::folder::strs;
use crate::text::{
    chars_of, copy_range, distinct_trimmed, distinct_trimmed_pieces, join_pieces, joined, split_at_char,
    split_chars, split_words, starts_with, starts_with_chars, string_of, views, words,
};

verus! {

/// A character with ASCII letters folded to lower case, as a code point.
pub open spec fn ascii_fold(c: char) -> int {
    if 65 <= (c as u32) && (c as u32) <= 90 {
        (c as u32) + 32int
    } else {
        c as u32 as int
    }
}

/// Equal up to ASCII case, as `str::eq_ignore_ascii_case` compares.
pub open spec fn eq_ascii_ci(a: Seq<char>, b: Seq<char>) -> bool {
    a.len() == b.len() && forall|i: int| 0 <= i < a.len() ==> ascii_fold(#[trigger] a[i]) == ascii_fold(b[i])
}

/// Some element of `v` equals `x` up to ASCII case.
pub open spec fn has_ci(v: Seq<Seq<char>>, x: Seq<char>) -> bool {
    exists|i: int| 0 <= i < v.len() && eq_ascii_ci(#[trigger] v[i], x)
}

/// `target` with each of `values` appended unless an equal one (up to ASCII
/// case) is already there.
pub open spec fn append_ci(target: Seq<Seq<char>>, values: Seq<Seq<char>>) -> Seq<Seq<char>>
    decreases values.len(),
{
    if values.len() == 0 {
        target
    } else {
        let r = append_ci(target, values.drop_last());
        if has_ci(r, values.last()) {
            r
        } else {
            r.push(values.last())
        }
    }
}

/// The length of the folder marker that `tok` starts with (`#`, `dir:`,
/// `folder:`, `path:` or `in:`), or 0 for a plain query word.
pub open spec fn marker_len(tok: Seq<char>) -> int {
    if starts_with(tok, seq!['#']) {
        1
    } else if starts_with(tok, seq!['d', 'i', 'r', ':']) {
        4
    } else if starts_with(tok, seq!['f', 'o', 'l', 'd', 'e', 'r', ':']) {
        7
    } else if starts_with(tok, seq!['p', 'a', 't', 'h', ':']) {
        5
    } else if starts_with(tok, seq!['i', 'n', ':']) {
        3
    } else {
        0
    }
}

/// The folder terms that a marked token carries: its comma-separated values,
/// trimmed, without empty ones and repeats.
pub open spec fn token_terms(tok: Seq<char>) -> Seq<Seq<char>> {
    distinct_trimmed(split_at_char(tok.subrange(marker_len(tok), tok.len() as int), ','))
}

/// The query words and folder filters of a list of tokens.
pub open spec fn parse_tokens(toks: Seq<Seq<char>>) -> (Seq<Seq<char>>, Seq<Seq<char>>)
    decreases toks.len(),
{
    if toks.len() == 0 {
        (Seq::empty(), Seq::empty())
    } else {
        let (q, f) = parse_tokens(toks.drop_last());
        let t = toks.last();
        if marker_len(t) > 0 {
            (q, append_ci(f, token_terms(t)))
        } else {
            (q.push(t), f)
        }
    }
}

/// Whether two character sequences are equal up to ASCII case.
fn eq_ignore_ascii_case(a: &Vec<char>, b: &Vec<char>) -> (r: bool)
    ensures
        r == eq_ascii_ci(a@, b@),
{
    if a.len() != b.len() {
        return false;
    }
    let mut i: usize = 0;
    while i < a.len()
        invariant
            a@.len() == b@.len(),
            i <= a@.len(),
            forall|k: int| 0 <= k < i ==> ascii_fold(#[trigger] a@[k]) == ascii_fold(b@[k]),
        decreases a@.len() - i,
    {
        let x = a[i] as u32;
        let y = b[i] as u32;
        let fx = if 65 <= x && x <= 90 { x + 32 } else { x };
        let fy = if 65 <= y && y <= 90 { y + 32 } else { y };
        if fx != fy {
            return false;
        }
        i = i + 1;
    }
    true
}

/// Whether some element of `v` equals `x` up to ASCII case.
fn has_ci_in(v: &Vec<Vec<char>>, x: &Vec<char>) -> (r: bool)
    ensures
        r == has_ci(views(v@), x@),
{
    let mut j: usize = 0;
    while j < v.len()
        invariant
            j <= v@.len(),
            forall|k: int| 0 <= k < j ==> !eq_ascii_ci(#[trigger] views(v@)[k], x@),
        decreases v@.len() - j,
    {
        assert(views(v@)[j as int] == v@[j as int]@);
        if eq_ignore_ascii_case(&v[j], x) {
            return true;
        }
        j = j + 1;
    }
    false
}

/// Appends each of `values` to `target` unless an equal one, up to ASCII
/// case, is already there.
pub fn append_unique_case_insensitive(target: &mut Vec<Vec<char>>, values: Vec<Vec<char>>)
    ensures
        views(final(target)@) == append_ci(views(old(target)@), views(values@)),
{
    let ghost start = views(target@);
    let mut i: usize = 0;
    while i < values.len()
        invariant
            i <= values@.len(),
            views(target@) == append_ci(start, views(values@).subrange(0, i as int)),
        decreases values@.len() - i,
    {
        assert(views(values@).subrange(0, i + 1).drop_last() =~= views(values@).subrange(0, i as int));
        assert(views(values@)[i as int] == values@[i as int]@);
        let ghost cur = views(target@);
        let found = has_ci_in(target, &values[i]);
        if !found {
            let v = copy_range(values[i].as_slice(), 0, values[i].len());
            assert(values@[i as int]@.subrange(0, values@[i as int]@.len() as int) =~= values@[i as int]@);
            target.push(v);
            assert(views(target@) =~= cur.push(values@[i as int]@));
        }
        i = i + 1;
    }
    assert(views(values@).subrange(0, values@.len() as int) =~= views(values@));
}

/// The trimmed, non-empty values of `values`, without repeats: the first of
/// each stays, in order.
pub fn normalize_csv_terms(values: &[&str]) -> (r: Vec<String>)
    ensures
        strs(r@) == distinct_trimmed(values@.map_values(|s: &str| s@)),
{
    let mut pieces: Vec<Vec<char>> = Vec::new();
    let mut i: usize = 0;
    while i < values.len()
        invariant
            i <= values@.len(),
            views(pieces@) == values@.map_values(|s: &str| s@).subrange(0, i as int),
        decreases values@.len() - i,
    {
        let cs = chars_of(values[i]);
        let ghost prev = views(pieces@);
        pieces.push(cs);
        assert(views(pieces@) =~= prev.push(values@[i as int]@));
        i = i + 1;
        assert(views(pieces@) =~= values@.map_values(|s: &str| s@).subrange(0, i as int));
    }
    assert(values@.map_values(|s: &str| s@).subrange(0, values@.len() as int) =~= values@.map_values(|s: &str| s@));
    let d = distinct_trimmed_pieces(&pieces);
    let mut r: Vec<String> = Vec::new();
    let mut k: usize = 0;
    while k < d.len()
        invariant
            k <= d@.len(),
            strs(r@) == views(d@).subrange(0, k as int),
        decreases d@.len() - k,
    {
        let s = string_of(d[k].as_slice());
        let ghost before = r@;
        r.push(s);
        assert(strs(r@) =~= strs(before).push(d@[k as int]@));
        k = k + 1;
        assert(strs(r@) =~= views(d@).subrange(0, k as int));
    }
    assert(views(d@).subrange(0, d@.len() as int) =~= views(d@));
    r
}

/// The length of the folder marker that `tok` starts with, or 0.
fn marker_length(tok: &Vec<char>) -> (r: usize)
    ensures
        r == marker_len(tok@),
{
    let hash = vec!['#'];
    let dir = vec!['d', 'i', 'r', ':'];
    let folder = vec!['f', 'o', 'l', 'd', 'e', 'r', ':'];
    let path = vec!['p', 'a', 't', 'h', ':'];
    let inside = vec!['i', 'n', ':'];
    assert(hash@ =~= seq!['#']);
    assert(dir@ =~= seq!['d', 'i', 'r', ':']);
    assert(folder@ =~= seq!['f', 'o', 'l', 'd', 'e', 'r', ':']);
    assert(path@ =~= seq!['p', 'a', 't', 'h', ':']);
    assert(inside@ =~= seq!['i', 'n', ':']);
    if starts_with_chars(tok.as_slice(), hash.as_slice()) {
        1
    } else if starts_with_chars(tok.as_slice(), dir.as_slice()) {
        4
    } else if starts_with_chars(tok.as_slice(), folder.as_slice()) {
        7
    } else if starts_with_chars(tok.as_slice(), path.as_slice()) {
        5
    } else if starts_with_chars(tok.as_slice(), inside.as_slice()) {
        3
    } else {
        0
    }
}

/// Splits a raw search line into its query and its folder filters. Words
/// that start with `#`, `dir:`, `folder:`, `path:` or `in:` carry
/// comma-separated folder filters, which are trimmed, deduplicated and merged
/// up to ASCII case; the other words, joined by single spaces, make the query.
pub fn parse_query_and_folder_filters(raw_query: &str) -> (r: (String, Vec<String>))
    ensures
        r.0@ == joined(parse_tokens(words(raw_query@)).0, seq![' ']),
        strs(r.1@) == parse_tokens(words(raw_query@)).1,
{
    let toks = split_words(chars_of(raw_query).as_slice());
    let ghost tv = views(toks@);
    let mut query_words: Vec<Vec<char>> = Vec::new();
    let mut filters: Vec<Vec<char>> = Vec::new();
    let mut i: usize = 0;
    assert(tv.subrange(0, 0) =~= Seq::<Seq<char>>::empty());
    while i < toks.len()
        invariant
            i <= toks@.len(),
            tv == views(toks@),
            (views(query_words@), views(filters@)) == parse_tokens(tv.subrange(0, i as int)),
        decreases toks@.len() - i,
    {
        assert(tv.subrange(0, i + 1).drop_last() =~= tv.subrange(0, i as int));
        assert(tv[i as int] == toks@[i as int]@);
        let tok = &toks[i];
        let m = marker_length(tok);
        if m > 0 {
            let value = copy_range(tok.as_slice(), m, tok.len());
            let pieces = split_chars(value.as_slice(), ',');
            let terms = distinct_trimmed_pieces(&pieces);
            append_unique_case_insensitive(&mut filters, terms);
        } else {
            let w = copy_range(tok.as_slice(), 0, tok.len());
            assert(tok@.subrange(0, tok@.len() as int) =~= tok@);
            let ghost before = views(query_words@);
            query_words.push(w);
            assert(views(query_words@) =~= before.push(tok@));
        }
        i = i + 1;
    }
    assert(tv.subrange(0, tv.len() as int) =~= tv);
    let space = vec![' '];
    assert(space@ =~= seq![' ']);
    let line = join_pieces(&query_words, &space);
    let mut out: Vec<String> = Vec::new();
    let mut f: usize = 0;
    while f < filters.len()
        invariant
            f <= filters@.len(),
            strs(out@) == views(filters@).subrange(0, f as int),
        decreases filters@.len() - f,
    {
        let s = string_of(filters[f].as_slice());
        let ghost prev = out@;
        out.push(s);
        assert(strs(out@) =~= strs(prev).push(filters@[f as int]@));
        f = f + 1;
        assert(strs(out@) =~= views(filters@).subrange(0, f as int));
    }
    assert(views(filters@).subrange(0, filters@.len() as int) =~= views(filters@));
    (string_of(line.as_slice()), out)
}

} // verus!
