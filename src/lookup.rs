//! Answering a search request: choosing between listing, text search and
//! ranked search by the shape of the request.

use vstd::prelude::*;
use crate::folder::strs;
use crate::fts::{lowered_all, query_terms};
use crate::query::{append_ci, append_unique_case_insensitive};
use crate::record::ChromeBookmark;
use crate::searcher::{eligible_records, hit_records, score_list, BookmarkSearcher, SearchResult};
use crate::store::{admitted, first_n, folder_filters_of, RecordFilter, TagManager};
use crate::text::{chars_of, distinct_trimmed, distinct_trimmed_pieces, split_at_char, split_chars, string_of, views};
use crate::topk::is_top_k;

verus! {

/// `r` are the hits of a ranked search over `records` with no tag
/// constraint and folder filters `folders`: for an empty query the first
/// `limit` records that pass the filters, else the `limit` best by score.
pub open spec fn ranked_hits(records: Seq<ChromeBookmark>, folders: Seq<Seq<Seq<char>>>, q: Seq<char>, fuzzy: bool,
    limit: int, r: Seq<ChromeBookmark>) -> bool {
    if q.len() == 0 {
        r == first_n(eligible_records(records, None, folders), limit)
    } else {
        exists|picks: Seq<usize>| {
            &&& is_top_k(score_list(records, None, folders, q, fuzzy), limit, picks)
            &&& picks.len() == r.len()
            &&& forall|t: int| 0 <= t < picks.len() ==> #[trigger] r[t] == records[picks[t] as int]
        }
    }
}

/// The folder filters of a request: the comma-separated option (trimmed,
/// without blanks and repeats), then each inline filter that is not already
/// there up to ASCII case.
pub fn merge_folder_filters(option: Option<&str>, inline: &Vec<String>) -> (r: Vec<String>)
    ensures
        strs(r@) == append_ci(match option {
            Some(o) => distinct_trimmed(split_at_char(o@, ',')),
            None => Seq::empty(),
        }, strs(inline@)),
{
    let mut merged: Vec<Vec<char>> = match option {
        Some(o) => distinct_trimmed_pieces(&split_chars(chars_of(o).as_slice(), ',')),
        None => Vec::new(),
    };
    assert(option is None ==> views(merged@) =~= Seq::empty());
    let mut extra: Vec<Vec<char>> = Vec::new();
    let mut i: usize = 0;
    while i < inline.len()
        invariant
            i <= inline@.len(),
            views(extra@) == strs(inline@).subrange(0, i as int),
        decreases inline@.len() - i,
    {
        let c = chars_of(inline[i].as_str());
        let ghost prev = views(extra@);
        extra.push(c);
        assert(views(extra@) =~= prev.push(inline@[i as int]@));
        i = i + 1;
        assert(strs(inline@).subrange(0, i as int) =~= strs(inline@).subrange(0, i - 1).push(inline@[i - 1]@));
    }
    assert(strs(inline@).subrange(0, inline@.len() as int) =~= strs(inline@));
    append_unique_case_insensitive(&mut merged, extra);
    let mut out: Vec<String> = Vec::new();
    let mut k: usize = 0;
    while k < merged.len()
        invariant
            k <= merged@.len(),
            strs(out@) == views(merged@).subrange(0, k as int),
        decreases merged@.len() - k,
    {
        let s = string_of(merged[k].as_slice());
        let ghost prev = out@;
        out.push(s);
        assert(strs(out@) =~= strs(prev).push(merged@[k as int]@));
        k = k + 1;
        assert(strs(out@) =~= views(merged@).subrange(0, k as int));
    }
    assert(views(merged@).subrange(0, merged@.len() as int) =~= views(merged@));
    out
}

/// The tags of a comma-separated tag option: trimmed, without blanks and
/// repeats; none where the option is absent.
pub fn tag_list(option: Option<&str>) -> (r: Vec<String>)
    ensures
        strs(r@) == match option {
            Some(o) => distinct_trimmed(split_at_char(o@, ',')),
            None => Seq::empty(),
        },
{
    let pieces = match option {
        Some(o) => distinct_trimmed_pieces(&split_chars(chars_of(o).as_slice(), ',')),
        None => Vec::new(),
    };
    assert(option is None ==> views(pieces@) =~= Seq::empty());
    let mut out: Vec<String> = Vec::new();
    let mut k: usize = 0;
    while k < pieces.len()
        invariant
            k <= pieces@.len(),
            strs(out@) == views(pieces@).subrange(0, k as int),
        decreases pieces@.len() - k,
    {
        let s = string_of(pieces[k].as_slice());
        let ghost prev = out@;
        out.push(s);
        assert(strs(out@) =~= strs(prev).push(pieces@[k as int]@));
        k = k + 1;
        assert(strs(out@) =~= views(pieces@).subrange(0, k as int));
    }
    assert(views(pieces@).subrange(0, pieces@.len() as int) =~= views(pieces@));
    out
}

/// The records of a list of hits.
fn records_of_hits(hits: &Vec<SearchResult>) -> (r: Vec<ChromeBookmark>)
    ensures
        r@ == hit_records(hits@),
{
    let mut out: Vec<ChromeBookmark> = Vec::new();
    let mut i: usize = 0;
    while i < hits.len()
        invariant
            i <= hits@.len(),
            out@ == hit_records(hits@).subrange(0, i as int),
        decreases hits@.len() - i,
    {
        out.push(hits[i].bookmark.duplicate());
        i = i + 1;
        assert(out@ =~= hit_records(hits@).subrange(0, i as int));
    }
    assert(hit_records(hits@).subrange(0, hits@.len() as int) =~= hit_records(hits@));
    out
}

/// Answers a search request against the index. A fuzzy request ranks every
/// record fuzzily. Otherwise an empty query lists the records that pass the
/// folder filters, and a query uses text search, falling back to exact
/// ranking where text search is unavailable or the query holds no term.
pub fn search_index(index: &TagManager, searcher: &BookmarkSearcher, query: &str, folder_filters: &[String],
    fuzzy: bool, limit: usize) -> (r: Vec<ChromeBookmark>)
    requires
        index.inv(),
    ensures
        fuzzy ==> ranked_hits(index@.records, folder_filters_of(strs(folder_filters@)), query@, true, limit as int, r@),
        !fuzzy && query@.len() == 0 ==> r@ == first_n(admitted(index@.records, index@.tags,
            RecordFilter { want_tags: Seq::empty(), folders: folder_filters_of(strs(folder_filters@)), terms: Seq::empty() }),
            limit as int),
        !fuzzy && query@.len() > 0 && index@.text_index && query_terms(query@).len() > 0 ==> r@ == first_n(
            admitted(index@.records, index@.tags, RecordFilter { want_tags: Seq::empty(),
                folders: folder_filters_of(strs(folder_filters@)), terms: lowered_all(query_terms(query@)) }),
            limit as int),
        !fuzzy && query@.len() > 0 && (!index@.text_index || query_terms(query@).len() == 0) ==> ranked_hits(
            index@.records, folder_filters_of(strs(folder_filters@)), query@, false, limit as int, r@),
{
    let none: Vec<String> = Vec::new();
    assert(strs(none@) =~= Seq::<Seq<char>>::empty());
    if fuzzy {
        let all = index.load_all_bookmarks();
        let hits = searcher.search(all.as_slice(), index, query, none.as_slice(), folder_filters, true, limit);
        let r = records_of_hits(&hits);
        proof {
            if query@.len() > 0 {
                let picks = choose|picks: Seq<usize>| {
                    &&& is_top_k(score_list(all@, None, folder_filters_of(strs(folder_filters@)), query@, true),
                        limit as int, picks)
                    &&& picks.len() == hits@.len()
                    &&& forall|t: int| 0 <= t < picks.len() ==> (#[trigger] hits@[t]).bookmark == all@[picks[t] as int]
                };
                assert forall|t: int| 0 <= t < picks.len() implies #[trigger] r@[t] == all@[picks[t] as int] by {
                    assert(r@[t] == hits@[t].bookmark);
                }
            }
        }
        return r;
    }
    if query.is_empty() {
        return index.list_bookmarks_by_folder_filters(folder_filters, limit);
    }
    match index.search_bookmarks_fts_with_folders(query, folder_filters, limit) {
        Some(found) => found,
        None => {
            let all = index.load_all_bookmarks();
            let hits = searcher.search(all.as_slice(), index, query, none.as_slice(), folder_filters, false, limit);
            let r = records_of_hits(&hits);
            proof {
                let picks = choose|picks: Seq<usize>| {
                    &&& is_top_k(score_list(all@, None, folder_filters_of(strs(folder_filters@)), query@, false),
                        limit as int, picks)
                    &&& picks.len() == hits@.len()
                    &&& forall|t: int| 0 <= t < picks.len() ==> (#[trigger] hits@[t]).bookmark == all@[picks[t] as int]
                };
                assert forall|t: int| 0 <= t < picks.len() implies #[trigger] r@[t] == all@[picks[t] as int] by {
                    assert(r@[t] == hits@[t].bookmark);
                }
            }
            r
        }
    }
}

} // verus!
