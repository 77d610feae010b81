//! Launcher-side helpers: the fixed action list, result subtitles, the
//! error kinds, and the freshness test of the last index check.

use vstd::prelude::*;
use crate::folder::strs;
use crate::text::{
    chars_of, contains_chars, contains_seq, join_pieces, joined, lower_of, lowercase, matches_at, non_empty,
    push_all, split_at_char, split_chars, string_of, trim_chars, trimmed, views,
};

verus! {

/// How long, in milliseconds, a finished index check counts as recent.
pub const INDEX_CHECK_TTL_MS: u64 = 2000;

/// An entry of the launcher's action list.
#[derive(Clone, Copy)]
pub struct WorkflowAction {
    pub title: &'static str,
    pub subtitle: &'static str,
    pub arg: &'static str,
    pub icon_path: &'static str,
}

/// The launcher's actions: refresh, stats, the guide and the readme.
pub fn workflow_actions() -> (r: Vec<WorkflowAction>)
    ensures
        r@.len() == 4,
        r@[0].arg@ == "action:refresh"@,
        r@[1].arg@ == "action:stats"@,
        r@[2].arg@ == "action:open_guide"@,
        r@[3].arg@ == "action:open_readme"@,
{
    vec![
        WorkflowAction {
            title: "Refresh Index",
            subtitle: "Rescan the bookmarks and rebuild the index",
            arg: "action:refresh",
            icon_path: "icons/refresh.png",
        },
        WorkflowAction {
            title: "Show Stats",
            subtitle: "Show how many bookmarks are indexed",
            arg: "action:stats",
            icon_path: "icons/stats.png",
        },
        WorkflowAction {
            title: "Open Workflow Guide",
            subtitle: "Open the local ALFRED_WORKFLOW_GUIDE.md",
            arg: "action:open_guide",
            icon_path: "icons/guide.png",
        },
        WorkflowAction {
            title: "Open README",
            subtitle: "Open the local README.md",
            arg: "action:open_readme",
            icon_path: "icons/readme.png",
        },
    ]
}

/// The keyword of an action query: its words joined by spaces, trimmed and
/// lower-cased.
pub open spec fn action_keyword(query: Seq<Seq<char>>) -> Seq<char> {
    lower_of(trimmed(joined(query, seq![' '])))
}

/// Action `a` matches keyword `kw`: the keyword is empty, or the lower-cased
/// title or subtitle contains it.
pub open spec fn action_matches(a: WorkflowAction, kw: Seq<char>) -> bool {
    kw.len() == 0 || contains_seq(lower_of(a.title@), kw) || contains_seq(lower_of(a.subtitle@), kw)
}

/// The actions of `acts` that match `kw`, in order.
pub open spec fn matching(acts: Seq<WorkflowAction>, kw: Seq<char>) -> Seq<WorkflowAction>
    decreases acts.len(),
{
    if acts.len() == 0 {
        Seq::empty()
    } else {
        let r = matching(acts.drop_last(), kw);
        if action_matches(acts.last(), kw) {
            r.push(acts.last())
        } else {
            r
        }
    }
}

/// The actions that match the words of an action query.
pub fn matching_actions(actions: &Vec<WorkflowAction>, query: &[String]) -> (r: Vec<WorkflowAction>)
    ensures
        r@ == matching(actions@, action_keyword(strs(query@))),
{
    let mut words: Vec<Vec<char>> = Vec::new();
    let mut i: usize = 0;
    while i < query.len()
        invariant
            i <= query@.len(),
            views(words@) == strs(query@).subrange(0, i as int),
        decreases query@.len() - i,
    {
        let c = chars_of(query[i].as_str());
        let ghost prev = views(words@);
        words.push(c);
        assert(views(words@) =~= prev.push(query@[i as int]@));
        i = i + 1;
        assert(strs(query@).subrange(0, i as int) =~= strs(query@).subrange(0, i - 1).push(query@[i - 1]@));
    }
    assert(strs(query@).subrange(0, query@.len() as int) =~= strs(query@));
    let space = vec![' '];
    assert(space@ =~= seq![' ']);
    let line = trim_chars(join_pieces(&words, &space).as_slice());
    let kw = chars_of(lowercase(string_of(line.as_slice()).as_str()).as_str());
    let ghost k = action_keyword(strs(query@));
    assert(kw@ == k);
    let mut out: Vec<WorkflowAction> = Vec::new();
    let mut j: usize = 0;
    while j < actions.len()
        invariant
            j <= actions@.len(),
            kw@ == k,
            out@ == matching(actions@.subrange(0, j as int), k),
        decreases actions@.len() - j,
    {
        assert(actions@.subrange(0, j + 1).drop_last() =~= actions@.subrange(0, j as int));
        let a = actions[j];
        let keep = kw.len() == 0
            || contains_chars(chars_of(lowercase(a.title).as_str()).as_slice(), kw.as_slice())
            || contains_chars(chars_of(lowercase(a.subtitle).as_str()).as_slice(), kw.as_slice());
        if keep {
            out.push(a);
        }
        j = j + 1;
    }
    assert(actions@.subrange(0, actions@.len() as int) =~= actions@);
    out
}

/// The subtitle of a hit: the non-empty folder names joined by ` · `, then
/// two spaces, `·`, two spaces and the domain; the domain alone where there
/// is no folder name.
pub open spec fn subtitle_of(folder: Option<Seq<char>>, domain: Seq<char>) -> Seq<char> {
    let shown = match folder {
        Some(p) => joined(non_empty(split_at_char(p, '/')), seq![' ', '·', ' ']),
        None => Seq::empty(),
    };
    if shown.len() > 0 {
        shown + seq![' ', ' ', '·', ' ', ' '] + domain
    } else {
        domain
    }
}

/// The subtitle of a hit in folder `folder_path` on `domain`.
pub fn build_subtitle(folder_path: &Option<String>, domain: &str) -> (r: String)
    ensures
        r@ == subtitle_of(match folder_path { Some(p) => Some(p@), None => None::<Seq<char>> }, domain@),
{
    let shown: Vec<char> = match folder_path {
        Some(p) => {
            let pieces = split_chars(chars_of(p.as_str()).as_slice(), '/');
            let mut kept: Vec<Vec<char>> = Vec::new();
            let mut i: usize = 0;
            while i < pieces.len()
                invariant
                    i <= pieces@.len(),
                    views(kept@) == non_empty(views(pieces@).subrange(0, i as int)),
                decreases pieces@.len() - i,
            {
                assert(views(pieces@).subrange(0, i + 1).drop_last() =~= views(pieces@).subrange(0, i as int));
                assert(views(pieces@)[i as int] == pieces@[i as int]@);
                if pieces[i].len() > 0 {
                    let ghost prev = views(kept@);
                    kept.push(pieces[i].clone());
                    assert(views(kept@) =~= prev.push(pieces@[i as int]@));
                }
                i = i + 1;
            }
            assert(views(pieces@).subrange(0, pieces@.len() as int) =~= views(pieces@));
            let dot = vec![' ', '·', ' '];
            assert(dot@ =~= seq![' ', '·', ' ']);
            join_pieces(&kept, &dot)
        }
        None => Vec::new(),
    };
    let d = chars_of(domain);
    if shown.len() > 0 {
        let mut out = shown;
        let gap = vec![' ', ' ', '·', ' ', ' '];
        assert(gap@ =~= seq![' ', ' ', '·', ' ', ' ']);
        push_all(&mut out, &gap);
        push_all(&mut out, &d);
        string_of(out.as_slice())
    } else {
        string_of(d.as_slice())
    }
}

/// Whether a check made at `last_checked_ms` is still recent at `now`:
/// at most the time-to-live has passed (a clock that went back counts as no
/// time passed).
pub fn is_index_check_recent(last_checked_ms: u64, now: u64) -> (r: bool)
    ensures
        r == (now <= last_checked_ms || now - last_checked_ms <= INDEX_CHECK_TTL_MS),
{
    now.saturating_sub(last_checked_ms) <= INDEX_CHECK_TTL_MS
}

/// The first position at or after `from` where `p` occurs in `s`, or `s.len()`.
pub open spec fn find_from(s: Seq<char>, p: Seq<char>, from: int) -> int
    decreases s.len() - from,
{
    if from < 0 || from >= s.len() || from + p.len() > s.len() {
        s.len() as int
    } else if s.subrange(from, from + p.len()) == p {
        from
    } else {
        find_from(s, p, from + 1)
    }
}

/// The host part of a url: the text after the first `://` (up to a second
/// one, if any), cut at the first `/`; the whole url where it has no `://`.
pub open spec fn domain_of(url: Seq<char>) -> Seq<char> {
    let sep = seq![':', '/', '/'];
    let i = find_from(url, sep, 0);
    let rest = if i >= url.len() {
        url
    } else {
        url.subrange(i + 3, find_from(url, sep, i + 3))
    };
    rest.subrange(0, find_from(rest, seq!['/'], 0))
}

proof fn lemma_find_from_bounds(s: Seq<char>, p: Seq<char>, from: int)
    requires
        0 <= from,
        p.len() > 0,
    ensures
        from <= find_from(s, p, from) <= s.len() || find_from(s, p, from) == s.len(),
        find_from(s, p, from) <= s.len(),
        find_from(s, p, from) < s.len() ==> find_from(s, p, from) + p.len() <= s.len(),
    decreases s.len() - from,
{
    if from < s.len() && from + p.len() <= s.len() && s.subrange(from, from + p.len()) != p {
        lemma_find_from_bounds(s, p, from + 1);
    }
}

/// The first position at or after `from` where `p` occurs in `s`, or `s.len()`.
fn find_chars(s: &Vec<char>, p: &Vec<char>, from: usize) -> (r: usize)
    requires
        p@.len() > 0,
        from <= s@.len(),
    ensures
        r == find_from(s@, p@, from as int),
{
    let mut i: usize = from;
    while p.len() <= s.len() - i
        invariant
            from <= i <= s@.len(),
            p@.len() > 0,
            find_from(s@, p@, from as int) == find_from(s@, p@, i as int),
        decreases s@.len() - i,
    {
        if matches_at(s.as_slice(), p.as_slice(), i) {
            return i;
        }
        i = i + 1;
    }
    s.len()
}

/// The host part of `url`.
pub fn extract_domain(url: &str) -> (r: String)
    ensures
        r@ == domain_of(url@),
{
    let u = chars_of(url);
    let sep = vec![':', '/', '/'];
    let slash = vec!['/'];
    assert(sep@ =~= seq![':', '/', '/']);
    assert(slash@ =~= seq!['/']);
    let i = find_chars(&u, &sep, 0);
    proof { lemma_find_from_bounds(u@, sep@, 0); }
    let rest = if i >= u.len() {
        u
    } else {
        proof { lemma_find_from_bounds(u@, sep@, i + 3); }
        let j = find_chars(&u, &sep, i + 3);
        crate::text::copy_range(u.as_slice(), i + 3, j)
    };
    let k = find_chars(&rest, &slash, 0);
    proof { lemma_find_from_bounds(rest@, slash@, 0); }
    string_of(crate::text::copy_range(rest.as_slice(), 0, k).as_slice())
}

/// The error kinds of the launcher.
#[derive(Debug)]
pub enum AppError {
    BookmarksNotFound,
    BookmarksReadError(String),
    DatabaseError(String),
    Other(String),
}

/// The text of a labelled message: `label` then `detail`.
fn labelled(label: &str, detail: &String) -> (r: String)
    ensures
        r@ == label@ + detail@,
{
    let mut v = chars_of(label);
    let d = chars_of(detail.as_str());
    let ghost start = v@;
    let mut i: usize = 0;
    while i < d.len()
        invariant
            i <= d@.len(),
            v@ == start + d@.subrange(0, i as int),
        decreases d@.len() - i,
    {
        v.push(d[i]);
        i = i + 1;
        assert(v@ =~= start + d@.subrange(0, i as int));
    }
    assert(d@.subrange(0, d@.len() as int) =~= d@);
    string_of(v.as_slice())
}

impl AppError {
    /// The message shown for this error.
    pub fn message(&self) -> (r: String)
        ensures
            self is BookmarksNotFound ==> r@ == "no bookmarks file of a supported browser was found"@,
            self matches AppError::BookmarksReadError(d) ==> r@ == "failed to read bookmarks: "@ + d@,
            self matches AppError::DatabaseError(d) ==> r@ == "index database error: "@ + d@,
            self matches AppError::Other(d) ==> r@ == "error: "@ + d@,
    {
        match self {
            AppError::BookmarksNotFound => "no bookmarks file of a supported browser was found".to_owned(),
            AppError::BookmarksReadError(d) => labelled("failed to read bookmarks: ", d),
            AppError::DatabaseError(d) => labelled("index database error: ", d),
            AppError::Other(d) => labelled("error: ", d),
        }
    }
}

} // verus!
