//! Ranked search over a list of records: exact weighted scoring or fuzzy
//! scoring, tag and folder constraints, and deterministic top-K selection.

use vstd::prelude::*;
use fuzzy_matcher::skim::SkimMatcherV2;
use fuzzy_matcher::FuzzyMatcher;
use crate::folder::{filter_views, matches_folder_filters, passes_filters, strs};
use crate::record::ChromeBookmark;
use crate::store::{count_keys, count_views, folder_filters_of, ids_with_all, normalized_filters, first_n, tag_counts, IndexState, TagManager};
use crate::text::{chars_of, contains_chars, contains_seq, distinct_trimmed, lower_of, lowercase, same_chars,
    starts_with, starts_with_chars};
use crate::topk::{is_top_k, select_top_k};

verus! {

#[verifier::external_type_specification]
#[verifier::external_body]
pub struct ExSkimMatcherV2(SkimMatcherV2);

/// What `SkimMatcherV2::fuzzy_match`, in its default configuration, returns
/// for a choice and a pattern.
pub uninterp spec fn skim_score(choice: Seq<char>, pattern: Seq<char>) -> Option<i64>;

/// Relies on `SkimMatcherV2::default`.
#[verifier::external_body]
fn default_matcher() -> SkimMatcherV2 {
    SkimMatcherV2::default()
}

/// Relies on `FuzzyMatcher::fuzzy_match` of `SkimMatcherV2` in its default
/// configuration (the only one this crate builds): the score depends on the
/// two strings alone, and an empty pattern scores `Some(0)`.
#[verifier::external_body]
fn skim_match(m: &SkimMatcherV2, choice: &str, pattern: &str) -> (r: Option<i64>)
    ensures
        r == skim_score(choice@, pattern@),
        pattern@.len() == 0 ==> r == Some(0i64),
{
    m.fuzzy_match(choice, pattern)
}

/// One search hit.
#[derive(Debug)]
pub struct SearchResult {
    pub bookmark: ChromeBookmark,
}

/// The searcher; it holds the fuzzy matcher.
pub struct BookmarkSearcher {
    fuzzy_matcher: SkimMatcherV2,
}

/// The exact score of a record for a lower-cased query: 200 where the name
/// contains it, 100 more where the name equals it, 50 more where the name
/// starts with it; 100 where the url contains it; 50 where the folder path
/// contains it.
pub open spec fn exact_score(b: ChromeBookmark, q: Seq<char>) -> int {
    (if contains_seq(b.name_lower@, q) {
        200 + (if b.name_lower@ == q { 100int } else { 0int }) + (if starts_with(b.name_lower@, q) { 50int } else { 0int })
    } else {
        0int
    }) + (if contains_seq(b.url_lower@, q) { 100int } else { 0int }) + match b.folder_path_lower {
        Some(f) => if contains_seq(f@, q) { 50int } else { 0int },
        None => 0int,
    }
}

/// The larger of two integers.
pub open spec fn max_int(a: int, b: int) -> int {
    if a >= b { a } else { b }
}

/// The fuzzy score of a record: the best of twice the name's score, the
/// url's score and half the folder path's score, and at least 0.
pub open spec fn fuzzy_score(b: ChromeBookmark, q: Seq<char>) -> int {
    let n = match skim_score(b.name@, q) { Some(v) => 2 * v, None => 0 };
    let u = match skim_score(b.url@, q) { Some(v) => v as int, None => 0 };
    let f = match b.folder_path {
        Some(p) => match skim_score(p@, q) {
            Some(v) => if v > 0 { v / 2 } else { 0 },
            None => 0,
        },
        None => 0,
    };
    max_int(max_int(max_int(0, n), u), f)
}

/// The score of a record in the chosen mode.
pub open spec fn rank_score(b: ChromeBookmark, q: Seq<char>, fuzzy: bool) -> int {
    if fuzzy { fuzzy_score(b, q) } else { exact_score(b, lower_of(q)) }
}

/// The id constraint that requested tags put on records: none where no tag
/// was requested, else the ids that carry every (trimmed, non-blank) tag.
pub open spec fn tag_constraint(store: IndexState, search_tags: Seq<Seq<char>>) -> Option<Set<Seq<char>>> {
    if search_tags.len() == 0 {
        None
    } else {
        Some(ids_with_all(store.tags, distinct_trimmed(search_tags)))
    }
}

/// A record meets the tag and folder constraints.
pub open spec fn eligible(b: ChromeBookmark, ids: Option<Set<Seq<char>>>, folders: Seq<Seq<Seq<char>>>) -> bool {
    &&& match ids {
        Some(s) => s.contains(b.id@),
        None => true,
    }
    &&& passes_filters(b, folders)
}

/// The records that meet the constraints, in order.
pub open spec fn eligible_records(bs: Seq<ChromeBookmark>, ids: Option<Set<Seq<char>>>, folders: Seq<Seq<Seq<char>>>)
    -> Seq<ChromeBookmark>
    decreases bs.len(),
{
    if bs.len() == 0 {
        Seq::empty()
    } else {
        let r = eligible_records(bs.drop_last(), ids, folders);
        if eligible(bs.last(), ids, folders) {
            r.push(bs.last())
        } else {
            r
        }
    }
}

/// The score of each record; 0 for one that misses a constraint.
pub open spec fn score_list(bs: Seq<ChromeBookmark>, ids: Option<Set<Seq<char>>>, folders: Seq<Seq<Seq<char>>>,
    q: Seq<char>, fuzzy: bool) -> Seq<i128> {
    Seq::new(bs.len(), |i: int| if eligible(bs[i], ids, folders) { rank_score(bs[i], q, fuzzy) as i128 } else { 0i128 })
}

/// The records of a list of hits.
pub open spec fn hit_records(r: Seq<SearchResult>) -> Seq<ChromeBookmark> {
    r.map_values(|h: SearchResult| h.bookmark)
}

/// The entries whose lower-cased tag contains `p` (every entry where `p` is
/// empty), in order.
pub open spec fn suggested(es: Seq<(Seq<char>, nat)>, p: Seq<char>) -> Seq<(Seq<char>, nat)>
    decreases es.len(),
{
    if es.len() == 0 {
        Seq::empty()
    } else {
        let r = suggested(es.drop_last(), p);
        if p.len() == 0 || contains_seq(lower_of(es.last().0), p) {
            r.push(es.last())
        } else {
            r
        }
    }
}

/// Exact score of `b` for the lower-cased query `q`.
fn exact_search(b: &ChromeBookmark, q: &Vec<char>) -> (r: i64)
    ensures
        r as int == exact_score(*b, q@),
{
    let name = chars_of(b.name_lower.as_str());
    let mut score: i64 = 0;
    if contains_chars(name.as_slice(), q.as_slice()) {
        score = score + 200;
        if same_chars(name.as_slice(), q.as_slice()) {
            score = score + 100;
        }
        if starts_with_chars(name.as_slice(), q.as_slice()) {
            score = score + 50;
        }
    }
    if contains_chars(chars_of(b.url_lower.as_str()).as_slice(), q.as_slice()) {
        score = score + 100;
    }
    match &b.folder_path_lower {
        Some(f) => {
            if contains_chars(chars_of(f.as_str()).as_slice(), q.as_slice()) {
                score = score + 50;
            }
        }
        None => {}
    }
    score
}

impl BookmarkSearcher {
    /// A searcher with a fuzzy matcher in its default configuration.
    pub fn new() -> Self {
        BookmarkSearcher { fuzzy_matcher: default_matcher() }
    }

    /// Fuzzy score of `b` for `query`.
    fn fuzzy_search(&self, b: &ChromeBookmark, query: &str) -> (r: i128)
        ensures
            r as int == fuzzy_score(*b, query@),
    {
        let mut best: i128 = 0;
        match skim_match(&self.fuzzy_matcher, b.name.as_str(), query) {
            Some(s) => {
                let v = (s as i128) * 2;
                if v > best {
                    best = v;
                }
            }
            None => {}
        }
        match skim_match(&self.fuzzy_matcher, b.url.as_str(), query) {
            Some(s) => {
                if (s as i128) > best {
                    best = s as i128;
                }
            }
            None => {}
        }
        match &b.folder_path {
            Some(p) => match skim_match(&self.fuzzy_matcher, p.as_str(), query) {
                Some(s) => {
                    if s > 0 && (s / 2) as i128 > best {
                        best = (s / 2) as i128;
                    }
                }
                None => {}
            },
            None => {}
        }
        best
    }

    /// Tag suggestions for a prefix: the tags in use whose lower-cased form
    /// contains the lower-cased prefix (all of them for an empty prefix), with
    /// their counts, the most used first and, on equal counts, in code-point
    /// order.
    pub fn get_tag_suggestions(&self, tag_manager: &TagManager, prefix: &str) -> (r: Vec<(String, usize)>)
        ensures
            exists|picks: Seq<usize>| {
                &&& #[trigger] is_top_k(count_keys(suggested(tag_counts(tag_manager@.tags), lower_of(prefix@))),
                    suggested(tag_counts(tag_manager@.tags), lower_of(prefix@)).len() as int, picks)
                &&& picks.len() == r@.len()
                &&& forall|t: int| 0 <= t < picks.len() ==> ((#[trigger] r@[t]).0@, r@[t].1 as nat)
                    == suggested(tag_counts(tag_manager@.tags), lower_of(prefix@))[picks[t] as int]
            },
    {
        let all = tag_manager.get_tag_counts_by_name();
        let ghost es = tag_counts(tag_manager@.tags);
        let p = chars_of(lowercase(prefix).as_str());
        let mut kept: Vec<(String, usize)> = Vec::new();
        let mut keys: Vec<i128> = Vec::new();
        let mut i: usize = 0;
        while i < all.len()
            invariant
                i <= all@.len(),
                all@.len() == es.len(),
                es == tag_counts(tag_manager@.tags),
                count_views(all@) == es,
                p@ == lower_of(prefix@),
                kept@.len() == keys@.len(),
                kept@.map_values(|e: (String, usize)| (e.0@, e.1 as nat)) == suggested(es.subrange(0, i as int), p@),
                keys@ == count_keys(suggested(es.subrange(0, i as int), p@)),
            decreases all@.len() - i,
        {
            assert(es.subrange(0, i + 1).drop_last() =~= es.subrange(0, i as int));
            assert(count_views(all@)[i as int] == (all@[i as int].0@, all@[i as int].1 as nat));
            let e = &all[i];
            let keep = p.len() == 0 || contains_chars(chars_of(lowercase(e.0.as_str()).as_str()).as_slice(), p.as_slice());
            if keep {
                let ghost prev = kept@.map_values(|e: (String, usize)| (e.0@, e.1 as nat));
                let ghost prev_keys = keys@;
                kept.push((e.0.clone(), e.1));
                keys.push(e.1 as i128 + 1);
                assert(kept@.map_values(|e: (String, usize)| (e.0@, e.1 as nat)) =~= prev.push(es[i as int]));
                assert(keys@ =~= count_keys(prev.push(es[i as int])));
            }
            i = i + 1;
        }
        assert(es.subrange(0, es.len() as int) =~= es);
        let ghost kv = suggested(es, p@);
        let picks = select_top_k(&keys, kept.len());
        let mut out: Vec<(String, usize)> = Vec::new();
        let mut t: usize = 0;
        while t < picks.len()
            invariant
                t <= picks@.len(),
                is_top_k(keys@, kept@.len() as int, picks@),
                keys@.len() == kept@.len(),
                kept@.map_values(|e: (String, usize)| (e.0@, e.1 as nat)) == kv,
                out@.len() == t,
                forall|u: int| 0 <= u < t ==> ((#[trigger] out@[u]).0@, out@[u].1 as nat) == kv[picks@[u] as int],
            decreases picks@.len() - t,
        {
            let q = picks[t];
            assert(q < keys@.len());
            assert(kv[q as int] == (kept@[q as int].0@, kept@[q as int].1 as nat));
            out.push((kept[q].0.clone(), kept[q].1));
            t = t + 1;
        }
        assert(kv.len() == kept@.len());
        out
    }

    /// Searches `bookmarks`. Records must carry every requested tag (where
    /// any tag is requested) and pass every folder filter. An empty query
    /// returns the first `limit` such records in order; otherwise records are
    /// scored (exactly against the lower-cased query, or fuzzily), those
    /// scoring 0 or less are dropped, and the `limit` best come back, higher
    /// score first and, on equal scores, earlier record first.
    pub fn search(&self, bookmarks: &[ChromeBookmark], tag_manager: &TagManager, query: &str, search_tags: &[String],
        folder_filters: &[String], fuzzy: bool, limit: usize) -> (r: Vec<SearchResult>)
        requires
            tag_manager.inv(),
        ensures
            limit == 0 ==> r@.len() == 0,
            query@.len() == 0 ==> hit_records(r@) == first_n(eligible_records(bookmarks@,
                tag_constraint(tag_manager@, strs(search_tags@)), folder_filters_of(strs(folder_filters@))), limit as int),
            query@.len() > 0 ==> exists|picks: Seq<usize>| {
                &&& is_top_k(score_list(bookmarks@, tag_constraint(tag_manager@, strs(search_tags@)),
                    folder_filters_of(strs(folder_filters@)), query@, fuzzy), limit as int, picks)
                &&& picks.len() == r@.len()
                &&& forall|t: int| 0 <= t < picks.len() ==> (#[trigger] r@[t]).bookmark == bookmarks@[picks[t] as int]
            },
    {
        let ghost ids = tag_constraint(tag_manager@, strs(search_tags@));
        let ghost folders = folder_filters_of(strs(folder_filters@));
        if limit == 0 {
            let r: Vec<SearchResult> = Vec::new();
            proof {
                assert(hit_records(r@) =~= first_n(eligible_records(bookmarks@, ids, folders), 0));
                let picks = Seq::<usize>::empty();
                if query@.len() > 0 {
                    assert(is_top_k(score_list(bookmarks@, ids, folders, query@, fuzzy), 0, picks));
                }
            }
            return r;
        }
        let constrained = search_tags.len() > 0;
        let tag_ids = if constrained { tag_manager.find_bookmarks_by_tags(search_tags) } else { Vec::new() };
        let filters = normalized_filters(folder_filters);
        let mut elig: Vec<bool> = Vec::new();
        let mut i: usize = 0;
        while i < bookmarks.len()
            invariant
                i <= bookmarks@.len(),
                elig@.len() == i,
                ids == tag_constraint(tag_manager@, strs(search_tags@)),
                folders == folder_filters_of(strs(folder_filters@)),
                filter_views(filters@) == folders,
                constrained == (search_tags@.len() > 0),
                constrained ==> strs(tag_ids@).to_set() == ids_with_all(tag_manager@.tags, distinct_trimmed(strs(search_tags@))),
                forall|k: int| 0 <= k < i ==> #[trigger] elig@[k] == eligible(bookmarks@[k], ids, folders),
            decreases bookmarks@.len() - i,
        {
            let b = &bookmarks[i];
            let tag_ok = if constrained { crate::store::contains_string(&tag_ids, &b.id) } else { true };
            proof {
                if constrained {
                    assert(strs(tag_ids@).contains(b.id@) == strs(tag_ids@).to_set().contains(b.id@));
                }
            }
            let ok = tag_ok && matches_folder_filters(b, &filters);
            elig.push(ok);
            i = i + 1;
        }
        if query.is_empty() {
            let mut out: Vec<SearchResult> = Vec::new();
            let mut j: usize = 0;
            while j < bookmarks.len()
                invariant
                    j <= bookmarks@.len(),
                    elig@.len() == bookmarks@.len(),
                    forall|k: int| 0 <= k < bookmarks@.len() ==> #[trigger] elig@[k] == eligible(bookmarks@[k], ids, folders),
                    hit_records(out@) == first_n(eligible_records(bookmarks@.subrange(0, j as int), ids, folders), limit as int),
                decreases bookmarks@.len() - j,
            {
                let ghost before = eligible_records(bookmarks@.subrange(0, j as int), ids, folders);
                assert(bookmarks@.subrange(0, j + 1).drop_last() =~= bookmarks@.subrange(0, j as int));
                assert(bookmarks@.subrange(0, j + 1).last() == bookmarks@[j as int]);
                if elig[j] {
                    if out.len() < limit {
                        let ghost prev = hit_records(out@);
                        out.push(SearchResult { bookmark: bookmarks[j].duplicate() });
                        assert(hit_records(out@) =~= prev.push(bookmarks@[j as int]));
                        assert(hit_records(out@) =~= first_n(before.push(bookmarks@[j as int]), limit as int));
                    } else {
                        assert(first_n(before.push(bookmarks@[j as int]), limit as int) =~= first_n(before, limit as int));
                    }
                }
                j = j + 1;
            }
            assert(bookmarks@.subrange(0, bookmarks@.len() as int) =~= bookmarks@);
            return out;
        }
        let q_lower = chars_of(lowercase(query).as_str());
        let ghost sl = score_list(bookmarks@, ids, folders, query@, fuzzy);
        let mut scores: Vec<i128> = Vec::new();
        let mut k: usize = 0;
        while k < bookmarks.len()
            invariant
                k <= bookmarks@.len(),
                elig@.len() == bookmarks@.len(),
                forall|m: int| 0 <= m < bookmarks@.len() ==> #[trigger] elig@[m] == eligible(bookmarks@[m], ids, folders),
                q_lower@ == lower_of(query@),
                sl == score_list(bookmarks@, ids, folders, query@, fuzzy),
                scores@ == sl.subrange(0, k as int),
            decreases bookmarks@.len() - k,
        {
            let s: i128 = if !elig[k] {
                0
            } else if fuzzy {
                self.fuzzy_search(&bookmarks[k], query)
            } else {
                exact_search(&bookmarks[k], &q_lower) as i128
            };
            scores.push(s);
            k = k + 1;
            assert(scores@ =~= sl.subrange(0, k as int));
        }
        assert(sl.subrange(0, sl.len() as int) =~= sl);
        let picks = select_top_k(&scores, limit);
        let mut out: Vec<SearchResult> = Vec::new();
        let mut t: usize = 0;
        while t < picks.len()
            invariant
                t <= picks@.len(),
                is_top_k(scores@, limit as int, picks@),
                scores@.len() == bookmarks@.len(),
                out@.len() == t,
                forall|u: int| 0 <= u < t ==> (#[trigger] out@[u]).bookmark == bookmarks@[picks@[u] as int],
            decreases picks@.len() - t,
        {
            let p = picks[t];
            assert(p < scores@.len());
            out.push(SearchResult { bookmark: bookmarks[p].duplicate() });
            t = t + 1;
        }
        assert(is_top_k(sl, limit as int, picks@));
        out
    }
}

} // verus!
