//! Folder filters: normalising a filter into path segments, matching it
//! against a record's folder path, and turning it into a storage-side
//! `LIKE` pattern.

use vstd::prelude::*;
use crate::record::ChromeBookmark;
use crate::text::{
    chars_of, contains_chars, contains_seq, lower_of, lowercase, split_at_char, split_chars, string_of,
    trim_chars, trim_pieces, trimmed, trimmed_non_empty, views,
};

verus! {

/// `\`, `>` and `|` all separate folders, as `/` does.
pub open spec fn unify_sep(c: char) -> char {
    if c == '\\' || c == '>' || c == '|' {
        '/'
    } else {
        c
    }
}

/// The segments that a raw filter string normalises to: trimmed, lower-cased,
/// split at any separator, each segment trimmed, empty segments dropped.
pub open spec fn filter_segments(raw: Seq<char>) -> Seq<Seq<char>> {
    trimmed_non_empty(split_at_char(lower_of(trimmed(raw)).map_values(|c: char| unify_sep(c)), '/'))
}

/// The segments of a (lower-cased) folder path.
pub open spec fn path_segments(p: Seq<char>) -> Seq<Seq<char>> {
    trimmed_non_empty(split_at_char(p, '/'))
}

/// The character sequences that a vector of strings holds.
pub open spec fn strs(v: Seq<String>) -> Seq<Seq<char>> {
    v.map_values(|x: String| x@)
}

/// The segment lists that a vector of normalised filters holds.
pub open spec fn filter_views(v: Seq<Vec<Vec<char>>>) -> Seq<Seq<Seq<char>>> {
    v.map_values(|f: Vec<Vec<char>>| views(f@))
}

/// The first segment at or after `from` that contains `w`, or `fs.len()`.
pub open spec fn first_hit(fs: Seq<Seq<char>>, w: Seq<char>, from: int) -> int
    decreases fs.len() - from,
{
    if from < 0 || from >= fs.len() {
        fs.len() as int
    } else if contains_seq(fs[from], w) {
        from
    } else {
        first_hit(fs, w, from + 1)
    }
}

/// Each wanted segment is found, in order, in a path segment at or after
/// the one after the previous match, taking the earliest match each time.
pub open spec fn ordered_from(fs: Seq<Seq<char>>, ws: Seq<Seq<char>>, cur: int) -> bool
    decreases ws.len(),
{
    if ws.len() == 0 {
        true
    } else {
        let j = first_hit(fs, ws[0], cur);
        j < fs.len() && ordered_from(fs, ws.drop_first(), j + 1)
    }
}

/// Whether path segments `fs` satisfy filter segments `ws`: one wanted
/// segment matches if any path segment contains it; several must be found in
/// order.
pub open spec fn hierarchy_match(fs: Seq<Seq<char>>, ws: Seq<Seq<char>>) -> bool {
    if ws.len() == 0 {
        true
    } else if ws.len() == 1 {
        exists|i: int| 0 <= i < fs.len() && #[trigger] contains_seq(fs[i], ws[0])
    } else {
        ordered_from(fs, ws, 0)
    }
}

/// Whether a record passes every one of the normalised filters.
pub open spec fn passes_filters(b: ChromeBookmark, filters: Seq<Seq<Seq<char>>>) -> bool {
    filters.len() == 0 || match b.folder_path_lower {
        Some(p) => forall|k: int| 0 <= k < filters.len() ==> hierarchy_match(path_segments(p@), #[trigger] filters[k]),
        None => false,
    }
}

/// One character of a `LIKE` pattern that matches `c` literally.
pub open spec fn escape_char(c: char) -> Seq<char> {
    if c == '\\' || c == '%' || c == '_' {
        seq!['\\', c]
    } else {
        seq![c]
    }
}

/// `s` with every `LIKE` wildcard and the escape character escaped.
pub open spec fn escaped(s: Seq<char>) -> Seq<char>
    decreases s.len(),
{
    if s.len() == 0 {
        Seq::empty()
    } else {
        escaped(s.drop_last()) + escape_char(s.last())
    }
}

/// The escaped segments joined by `%`.
pub open spec fn joined_escaped(segs: Seq<Seq<char>>) -> Seq<char>
    decreases segs.len(),
{
    if segs.len() == 0 {
        Seq::empty()
    } else if segs.len() == 1 {
        escaped(segs[0])
    } else {
        joined_escaped(segs.drop_last()) + seq!['%'] + escaped(segs.last())
    }
}

/// The `LIKE` pattern for normalised segments: `%seg1%seg2%...%`.
pub open spec fn like_pattern(segs: Seq<Seq<char>>) -> Seq<char> {
    seq!['%'] + joined_escaped(segs) + seq!['%']
}

/// The normalised segments of a raw filter, as character vectors.
pub fn filter_segment_chars(raw: &str) -> (r: Vec<Vec<char>>)
    ensures
        views(r@) == filter_segments(raw@),
{
    let t = trim_chars(chars_of(raw).as_slice());
    let lower = lowercase(string_of(t.as_slice()).as_str());
    let lc = chars_of(lower.as_str());
    let mut unified: Vec<char> = Vec::new();
    let mut i: usize = 0;
    while i < lc.len()
        invariant
            i <= lc@.len(),
            unified@ == lc@.subrange(0, i as int).map_values(|c: char| unify_sep(c)),
        decreases lc@.len() - i,
    {
        let c = lc[i];
        let u = if c == '\\' || c == '>' || c == '|' { '/' } else { c };
        unified.push(u);
        i = i + 1;
        assert(unified@ =~= lc@.subrange(0, i as int).map_values(|c: char| unify_sep(c)));
    }
    assert(lc@.subrange(0, lc@.len() as int) =~= lc@);
    let pieces = split_chars(unified.as_slice(), '/');
    trim_pieces(&pieces)
}

/// The normalised segments of a raw filter, or `None` where it holds none
/// (empty, blank or separators only): such a filter constrains nothing.
pub fn normalize_folder_filter(raw: &str) -> (r: Option<Vec<String>>)
    ensures
        r is None <==> filter_segments(raw@).len() == 0,
        r matches Some(v) ==> strs(v@) == filter_segments(raw@),
{
    let segs = filter_segment_chars(raw);
    if segs.len() == 0 {
        return None;
    }
    let mut out: Vec<String> = Vec::new();
    let mut i: usize = 0;
    while i < segs.len()
        invariant
            i <= segs@.len(),
            strs(out@) == views(segs@).subrange(0, i as int),
        decreases segs@.len() - i,
    {
        let seg = string_of(segs[i].as_slice());
        assert(views(segs@)[i as int] == segs@[i as int]@);
        let ghost prev = out@;
        out.push(seg);
        assert(strs(out@) =~= strs(prev).push(seg@));
        i = i + 1;
        assert(strs(out@) =~= views(segs@).subrange(0, i as int));
    }
    assert(views(segs@).subrange(0, segs@.len() as int) =~= views(segs@));
    Some(out)
}

/// The first path segment at or after `from` that contains `wanted`, or the
/// number of segments.
fn find_segment(fs: &Vec<Vec<char>>, wanted: &Vec<char>, from: usize) -> (r: usize)
    requires
        from <= fs@.len(),
    ensures
        r == first_hit(views(fs@), wanted@, from as int),
{
    let mut c: usize = from;
    while c < fs.len()
        invariant
            from <= c <= fs@.len(),
            first_hit(views(fs@), wanted@, from as int) == first_hit(views(fs@), wanted@, c as int),
        decreases fs@.len() - c,
    {
        if contains_chars(fs[c].as_slice(), wanted.as_slice()) {
            return c;
        }
        c = c + 1;
    }
    c
}

/// Whether path segments `fs` satisfy filter segments `ws`.
pub fn folder_matches_hierarchy(fs: &Vec<Vec<char>>, ws: &Vec<Vec<char>>) -> (r: bool)
    ensures
        r == hierarchy_match(views(fs@), views(ws@)),
{
    if ws.len() == 0 {
        return true;
    }
    if ws.len() == 1 {
        let mut i: usize = 0;
        while i < fs.len()
            invariant
                i <= fs@.len(),
                ws@.len() == 1,
                forall|k: int| 0 <= k < i ==> !contains_seq(#[trigger] views(fs@)[k], views(ws@)[0]),
            decreases fs@.len() - i,
        {
            assert(views(fs@)[i as int] == fs@[i as int]@ && views(ws@)[0] == ws@[0]@);
            if contains_chars(fs[i].as_slice(), ws[0].as_slice()) {
                assert(views(fs@)[i as int] == fs@[i as int]@ && views(ws@)[0] == ws@[0]@);
                assert(contains_seq(views(fs@)[i as int], views(ws@)[0]));
                return true;
            }
            i = i + 1;
        }
        return false;
    }
    let ghost fv = views(fs@);
    let ghost wv = views(ws@);
    let mut cursor: usize = 0;
    let mut k: usize = 0;
    assert(wv.subrange(0, wv.len() as int) =~= wv);
    assert(wv.len() >= 2);
    assert(hierarchy_match(fv, wv) == ordered_from(fv, wv, 0));
    while k < ws.len()
        invariant
            k <= wv.len() == ws@.len(),
            cursor <= fv.len() == fs@.len(),
            fv == views(fs@),
            wv == views(ws@),
            hierarchy_match(fv, wv) == ordered_from(fv, wv, 0),
            ordered_from(fv, wv, 0) == ordered_from(fv, wv.subrange(k as int, wv.len() as int), cursor as int),
        decreases wv.len() - k,
    {
        assert(wv[k as int] == ws@[k as int]@);
        let j = find_segment(fs, &ws[k], cursor);
        let ghost rest = wv.subrange(k as int, wv.len() as int);
        assert(rest[0] == wv[k as int]);
        assert(rest.drop_first() =~= wv.subrange(k + 1, wv.len() as int));
        if j >= fs.len() {
            assert(!ordered_from(fv, rest, cursor as int));
            return false;
        }
        cursor = j + 1;
        k = k + 1;
    }
    assert(wv.subrange(k as int, wv.len() as int) =~= Seq::<Seq<char>>::empty());
    true
}

/// Whether a record passes every one of the normalised filters. A record
/// without a folder passes only an empty filter list.
pub fn matches_folder_filters(b: &ChromeBookmark, filters: &Vec<Vec<Vec<char>>>) -> (r: bool)
    ensures
        r == passes_filters(*b, filter_views(filters@)),
{
    if filters.len() == 0 {
        return true;
    }
    if b.folder_path_lower.is_none() {
        return false;
    }
    let p = b.folder_path_lower.as_ref().unwrap();
    assert(b.folder_path_lower == Some(*p));
    let segs = trim_pieces(&split_chars(chars_of(p.as_str()).as_slice(), '/'));
    let mut k: usize = 0;
    while k < filters.len()
        invariant
            k <= filters@.len(),
            views(segs@) == path_segments(p@),
            b.folder_path_lower == Some(*p),
            forall|t: int| 0 <= t < k ==> hierarchy_match(path_segments(p@), #[trigger] filter_views(filters@)[t]),
        decreases filters@.len() - k,
    {
        assert(filter_views(filters@)[k as int] == views(filters@[k as int]@));
        if !folder_matches_hierarchy(&segs, &filters[k]) {
            assert(!hierarchy_match(path_segments(p@), filter_views(filters@)[k as int]));
            assert(b.folder_path_lower == Some(*p));
            return false;
        }
        k = k + 1;
    }
    true
}

/// `s` with every `LIKE` wildcard and the escape character escaped, appended to `out`.
fn push_escaped(out: &mut Vec<char>, s: &Vec<char>)
    ensures
        final(out)@ == old(out)@ + escaped(s@),
{
    let mut i: usize = 0;
    let ghost start = out@;
    while i < s.len()
        invariant
            i <= s@.len(),
            out@ == start + escaped(s@.subrange(0, i as int)),
        decreases s@.len() - i,
    {
        let c = s[i];
        assert(s@.subrange(0, i + 1).drop_last() =~= s@.subrange(0, i as int));
        if c == '\\' || c == '%' || c == '_' {
            out.push('\\');
        }
        out.push(c);
        i = i + 1;
        assert(out@ =~= start + escaped(s@.subrange(0, i as int)));
    }
    assert(s@.subrange(0, s@.len() as int) =~= s@);
}

/// The storage-side `LIKE` pattern for a raw filter, or `None` where the
/// filter constrains nothing. The pattern asks for the segments in order as
/// substrings anywhere in the path: a coarser test than the in-memory match.
pub fn folder_filter_to_like_pattern(raw: &str) -> (r: Option<String>)
    ensures
        r is None <==> filter_segments(raw@).len() == 0,
        r matches Some(p) ==> p@ == like_pattern(filter_segments(raw@)),
{
    let segs = filter_segment_chars(raw);
    if segs.len() == 0 {
        return None;
    }
    let ghost sv = views(segs@);
    let mut out: Vec<char> = Vec::new();
    out.push('%');
    push_escaped(&mut out, &segs[0]);
    let mut i: usize = 1;
    assert(sv.subrange(0, 1).len() == 1);
    assert(out@ =~= seq!['%'] + joined_escaped(sv.subrange(0, 1)));
    while i < segs.len()
        invariant
            1 <= i <= segs@.len(),
            sv == views(segs@),
            out@ == seq!['%'] + joined_escaped(sv.subrange(0, i as int)),
        decreases segs@.len() - i,
    {
        assert(sv.subrange(0, i + 1).drop_last() =~= sv.subrange(0, i as int));
        out.push('%');
        push_escaped(&mut out, &segs[i]);
        i = i + 1;
        assert(out@ =~= seq!['%'] + joined_escaped(sv.subrange(0, i as int)));
    }
    assert(sv.subrange(0, sv.len() as int) =~= sv);
    out.push('%');
    assert(out@ =~= like_pattern(sv));
    Some(string_of(out.as_slice()))
}

} // verus!
