//! The bookmark index: the record set, the tag associations and the stored
//! fingerprint, with all-or-nothing replacement and orphan cleanup.

use vstd::prelude::*;
use crate::folder::{filter_segment_chars, filter_segments, filter_views, matches_folder_filters, passes_filters, strs};
use crate::fts::{has_word_prefix, lowered_all, lowered_terms, query_terms, word_prefix};
use crate::order::{lemma_sorted_unique, sort_distinct, sorted_strict};
use crate::topk::{is_top_k, select_top_k};
use crate::record::ChromeBookmark;
use crate::text::{
    chars_of, distinct_trimmed, distinct_trimmed_pieces, lemma_distinct_trimmed, lemma_push_fresh, string_of,
    trim_chars, trimmed, views,
};

verus! {

/// A tag association as the contracts see it: (bookmark id, tag).
pub type TagPair = (Seq<char>, Seq<char>);

/// What an index holds.
pub struct IndexState {
    /// The records, in insertion order.
    pub records: Seq<ChromeBookmark>,
    /// The tag associations, in insertion order.
    pub tags: Seq<TagPair>,
    /// The fingerprint of the last successful replacement.
    pub fingerprint: Option<Seq<char>>,
    /// Whether text search is available.
    pub text_index: bool,
}

/// Why a replacement of the record set was refused.
#[derive(Debug, PartialEq, Eq, Structural)]
pub enum StoreError {
    /// Two records of the new set share an id; nothing was changed.
    DuplicateId,
}

/// Record ids are pairwise distinct.
pub open spec fn ids_unique(rs: Seq<ChromeBookmark>) -> bool {
    forall|i: int, j: int| 0 <= i < j < rs.len() ==> (#[trigger] rs[i]).id@ != (#[trigger] rs[j]).id@
}

/// Some record has this id.
pub open spec fn has_id(rs: Seq<ChromeBookmark>, id: Seq<char>) -> bool {
    exists|i: int| 0 <= i < rs.len() && (#[trigger] rs[i]).id@ == id
}

/// `b` is `a` with its lower-cased fields recomputed.
pub open spec fn same_source(a: ChromeBookmark, b: ChromeBookmark) -> bool {
    &&& b.id == a.id
    &&& b.name == a.name
    &&& b.url == a.url
    &&& b.date_added == a.date_added
    &&& b.folder_path == a.folder_path
    &&& b.lowered()
}

/// The tag pairs whose bookmark id is one of `rs`'s, in order.
pub open spec fn live_tags(tags: Seq<TagPair>, rs: Seq<ChromeBookmark>) -> Seq<TagPair>
    decreases tags.len(),
{
    if tags.len() == 0 {
        Seq::empty()
    } else {
        let r = live_tags(tags.drop_last(), rs);
        if has_id(rs, tags.last().0) {
            r.push(tags.last())
        } else {
            r
        }
    }
}

impl IndexState {
    /// Record ids are distinct, lower-cased fields are current, tag pairs are
    /// distinct and every tag is non-empty.
    pub open spec fn wf(&self) -> bool {
        &&& ids_unique(self.records)
        &&& forall|i: int| 0 <= i < self.records.len() ==> (#[trigger] self.records[i]).lowered()
        &&& self.tags.no_duplicates()
        &&& forall|i: int| 0 <= i < self.tags.len() ==> (#[trigger] self.tags[i]).1.len() > 0
    }

    /// The index is stale for this fingerprint.
    pub open spec fn stale(&self, fp: Seq<char>) -> bool {
        self.fingerprint != Some(fp)
    }

    /// The state after a successful replacement by `rs` under fingerprint `fp`:
    /// the records are `rs` (lower-cased fields recomputed), tags of ids that
    /// no longer exist are gone, and `fp` is stored.
    pub open spec fn replaced(&self, next: IndexState, rs: Seq<ChromeBookmark>, fp: Seq<char>) -> bool {
        &&& next.records.len() == rs.len()
        &&& forall|i: int| 0 <= i < rs.len() ==> same_source(rs[i], #[trigger] next.records[i])
        &&& next.tags == live_tags(self.tags, rs)
        &&& next.fingerprint == Some(fp)
        &&& next.text_index == self.text_index
    }
}

/// The index: records in insertion order, tag associations, the stored
/// fingerprint and whether text search is available.
pub struct TagManager {
    records: Vec<ChromeBookmark>,
    tags: Vec<(String, String)>,
    fingerprint: Option<String>,
    text_index: bool,
}

/// The pairs of views of a vector of string pairs.
pub open spec fn pair_views(v: Seq<(String, String)>) -> Seq<TagPair> {
    v.map_values(|p: (String, String)| (p.0@, p.1@))
}

impl View for TagManager {
    type V = IndexState;

    closed spec fn view(&self) -> IndexState {
        IndexState {
            records: self.records@,
            tags: pair_views(self.tags@),
            fingerprint: match self.fingerprint {
                Some(f) => Some(f@),
                None => None,
            },
            text_index: self.text_index,
        }
    }
}

/// Whether some record of `rs` has id `id`.
fn find_id(rs: &[ChromeBookmark], id: &String) -> (r: bool)
    ensures
        r == has_id(rs@, id@),
{
    let mut i: usize = 0;
    while i < rs.len()
        invariant
            i <= rs@.len(),
            forall|k: int| 0 <= k < i ==> (#[trigger] rs@[k]).id@ != id@,
        decreases rs@.len() - i,
    {
        if rs[i].id == *id {
            return true;
        }
        i = i + 1;
    }
    false
}

/// Whether the ids of `rs` are pairwise distinct.
fn all_ids_distinct(rs: &[ChromeBookmark]) -> (r: bool)
    ensures
        r == ids_unique(rs@),
{
    let n = rs.len();
    let mut i: usize = 0;
    while i < n
        invariant
            n == rs@.len(),
            i <= n,
            forall|a: int, b: int| 0 <= a < b < rs@.len() && a < i ==> (#[trigger] rs@[a]).id@ != (#[trigger] rs@[b]).id@,
        decreases n - i,
    {
        let mut j: usize = i + 1;
        while j < n
            invariant
                n == rs@.len(),
                i < n,
                i + 1 <= j <= n,
                forall|a: int, b: int| 0 <= a < b < rs@.len() && a < i ==> (#[trigger] rs@[a]).id@ != (#[trigger] rs@[b]).id@,
                forall|b: int| i < b < j ==> rs@[i as int].id@ != (#[trigger] rs@[b]).id@,
            decreases n - j,
        {
            if rs[i].id == rs[j].id {
                assert(!ids_unique(rs@)) by {
                    assert(rs@[i as int].id@ == rs@[j as int].id@);
                }
                return false;
            }
            j = j + 1;
        }
        i = i + 1;
    }
    true
}

proof fn lemma_live_tags(tags: Seq<TagPair>, rs: Seq<ChromeBookmark>)
    ensures
        forall|x: TagPair| live_tags(tags, rs).contains(x) ==> tags.contains(x),
        tags.no_duplicates() ==> live_tags(tags, rs).no_duplicates(),
    decreases tags.len(),
{
    if tags.len() > 0 {
        let d = tags.drop_last();
        lemma_live_tags(d, rs);
        assert forall|x: TagPair| live_tags(tags, rs).contains(x) implies tags.contains(x) by {
            if live_tags(d, rs).contains(x) {
                assert(d.contains(x));
                let k = choose|k: int| 0 <= k < d.len() && d[k] == x;
                assert(tags[k] == x);
            } else {
                assert(tags[tags.len() - 1] == x);
            }
        }
        if tags.no_duplicates() {
            assert(d.no_duplicates()) by {
                assert forall|a: int, b: int| 0 <= a < d.len() && 0 <= b < d.len() && a != b implies d[a] != d[b] by {
                    assert(tags[a] == d[a] && tags[b] == d[b]);
                }
            }
            let last = tags.last();
            assert(!d.contains(last)) by {
                if d.contains(last) {
                    let k = choose|k: int| 0 <= k < d.len() && d[k] == last;
                    assert(tags[k] == tags[tags.len() - 1]);
                }
            }
            let l = live_tags(d, rs);
            assert(!l.contains(last));
            if has_id(rs, last.0) {
                let l2 = l.push(last);
                assert forall|a: int, b: int| 0 <= a < l2.len() && 0 <= b < l2.len() && a != b implies l2[a] != l2[b] by {
                    if a == l.len() {
                        assert(l2[b] == l[b]);
                    } else if b == l.len() {
                        assert(l2[a] == l[a]);
                    } else {
                        assert(l2[a] == l[a] && l2[b] == l[b]);
                    }
                }
            }
        }
    }
}

/// `tags` with `(id, t)` appended for each `t` of `ts` that is not there yet.
pub open spec fn add_all(tags: Seq<TagPair>, id: Seq<char>, ts: Seq<Seq<char>>) -> Seq<TagPair>
    decreases ts.len(),
{
    if ts.len() == 0 {
        tags
    } else {
        let r = add_all(tags, id, ts.drop_last());
        if r.contains((id, ts.last())) {
            r
        } else {
            r.push((id, ts.last()))
        }
    }
}

/// A pair that a removal for bookmark `id` takes away: any of its pairs, or,
/// where `exact`, only the one with tag `t`.
pub open spec fn removes(p: TagPair, id: Seq<char>, t: Seq<char>, exact: bool) -> bool {
    p.0 == id && (!exact || p.1 == t)
}

/// `tags` without the pairs that a removal takes away, in order.
pub open spec fn drop_matching(tags: Seq<TagPair>, id: Seq<char>, t: Seq<char>, exact: bool) -> Seq<TagPair>
    decreases tags.len(),
{
    if tags.len() == 0 {
        Seq::empty()
    } else {
        let r = drop_matching(tags.drop_last(), id, t, exact);
        if removes(tags.last(), id, t, exact) {
            r
        } else {
            r.push(tags.last())
        }
    }
}

/// `tags` with tag `from` renamed to `to`; a pair that the renaming would
/// repeat is dropped, so that pairs stay distinct.
pub open spec fn renamed(tags: Seq<TagPair>, from: Seq<char>, to: Seq<char>) -> Seq<TagPair>
    decreases tags.len(),
{
    if tags.len() == 0 {
        Seq::empty()
    } else {
        let r = renamed(tags.drop_last(), from, to);
        let p = tags.last();
        let q = if p.1 == from { (p.0, to) } else { p };
        if r.contains(q) {
            r
        } else {
            r.push(q)
        }
    }
}

/// The number of pairs whose tag is `t`.
pub open spec fn count_tag(tags: Seq<TagPair>, t: Seq<char>) -> nat
    decreases tags.len(),
{
    if tags.len() == 0 {
        0
    } else {
        count_tag(tags.drop_last(), t) + if tags.last().1 == t { 1nat } else { 0nat }
    }
}

/// The elements of `s` without repeats, in order of first occurrence.
pub open spec fn firsts(s: Seq<Seq<char>>) -> Seq<Seq<char>>
    decreases s.len(),
{
    if s.len() == 0 {
        Seq::empty()
    } else {
        let r = firsts(s.drop_last());
        if r.contains(s.last()) {
            r
        } else {
            r.push(s.last())
        }
    }
}

/// The tags in use, each once, in code-point order.
pub open spec fn sorted_tags(tags: Seq<TagPair>) -> Seq<Seq<char>> {
    choose|s: Seq<Seq<char>>| sorted_strict(s) && s.to_set() == tag_column(tags).to_set()
}

/// Each tag in use, in code-point order, with its number of bookmarks.
pub open spec fn tag_counts(tags: Seq<TagPair>) -> Seq<(Seq<char>, nat)> {
    sorted_tags(tags).map_values(|t: Seq<char>| (t, count_tag(tags, t)))
}

/// The ranking keys of (tag, count) entries: one more than the count, so
/// that every entry ranks and a larger count ranks first.
pub open spec fn count_keys(es: Seq<(Seq<char>, nat)>) -> Seq<i128> {
    Seq::new(es.len(), |i: int| (es[i].1 + 1) as i128)
}

/// The views of (tag, count) entries.
pub open spec fn count_views(v: Seq<(String, usize)>) -> Seq<(Seq<char>, nat)> {
    v.map_values(|e: (String, usize)| (e.0@, e.1 as nat))
}

/// The tags that `id` carries.
pub open spec fn tags_of(tags: Seq<TagPair>, id: Seq<char>) -> Set<Seq<char>> {
    Set::new(|t: Seq<char>| tags.contains((id, t)))
}

/// `id` carries every tag of `want`.
pub open spec fn carries_all(tags: Seq<TagPair>, id: Seq<char>, want: Seq<Seq<char>>) -> bool {
    forall|k: int| 0 <= k < want.len() ==> tags.contains((id, #[trigger] want[k]))
}

/// The bookmark ids that carry every tag of `want`; none where `want` is empty.
pub open spec fn ids_with_all(tags: Seq<TagPair>, want: Seq<Seq<char>>) -> Set<Seq<char>> {
    Set::new(|id: Seq<char>| want.len() > 0 && carries_all(tags, id, want))
}

/// What a record must satisfy to be selected: carry every tag of
/// `want_tags`, pass every folder filter of `folders`, and hold every term of
/// `terms` at the start of a word of its lower-cased name, url or folder path.
pub struct RecordFilter {
    pub want_tags: Seq<Seq<char>>,
    pub folders: Seq<Seq<Seq<char>>>,
    pub terms: Seq<Seq<char>>,
}

/// `b` holds term `t` at the start of a word of one of its lower-cased fields.
pub open spec fn term_hit(b: ChromeBookmark, t: Seq<char>) -> bool {
    word_prefix(b.name_lower@, t) || word_prefix(b.url_lower@, t) || match b.folder_path_lower {
        Some(f) => word_prefix(f@, t),
        None => false,
    }
}

/// `b` satisfies filter `f`, given tag pairs `tags`.
pub open spec fn admits(f: RecordFilter, tags: Seq<TagPair>, b: ChromeBookmark) -> bool {
    &&& carries_all(tags, b.id@, f.want_tags)
    &&& passes_filters(b, f.folders)
    &&& forall|k: int| 0 <= k < f.terms.len() ==> term_hit(b, #[trigger] f.terms[k])
}

/// The records of `rs` that `f` admits, in order.
pub open spec fn admitted(rs: Seq<ChromeBookmark>, tags: Seq<TagPair>, f: RecordFilter) -> Seq<ChromeBookmark>
    decreases rs.len(),
{
    if rs.len() == 0 {
        Seq::empty()
    } else {
        let r = admitted(rs.drop_last(), tags, f);
        if admits(f, tags, rs.last()) {
            r.push(rs.last())
        } else {
            r
        }
    }
}

/// The normalised, non-empty folder filters among `raw`.
pub open spec fn folder_filters_of(raw: Seq<Seq<char>>) -> Seq<Seq<Seq<char>>>
    decreases raw.len(),
{
    if raw.len() == 0 {
        Seq::empty()
    } else {
        let r = folder_filters_of(raw.drop_last());
        let f = filter_segments(raw.last());
        if f.len() > 0 {
            r.push(f)
        } else {
            r
        }
    }
}

/// The tags of a list of pairs.
pub open spec fn tag_column(tags: Seq<TagPair>) -> Seq<Seq<char>> {
    tags.map_values(|p: TagPair| p.1)
}

/// The bookmark ids of a list of pairs.
pub open spec fn id_column(tags: Seq<TagPair>) -> Seq<Seq<char>> {
    tags.map_values(|p: TagPair| p.0)
}

/// The bookmark ids that carry at least one of the tags `any` (as given).
pub open spec fn ids_with_any(tags: Seq<TagPair>, any: Seq<Seq<char>>) -> Set<Seq<char>> {
    Set::new(|id: Seq<char>| exists|k: int| 0 <= k < any.len() && tags.contains((id, #[trigger] any[k])))
}

/// The distinct ids of `ids` that carry a tag, in order of first mention.
pub open spec fn tagged_ids(tags: Seq<TagPair>, ids: Seq<Seq<char>>) -> Seq<Seq<char>>
    decreases ids.len(),
{
    if ids.len() == 0 {
        Seq::empty()
    } else {
        let r = tagged_ids(tags, ids.drop_last());
        let x = ids.last();
        if tags_of(tags, x) != Set::<Seq<char>>::empty() && !r.contains(x) {
            r.push(x)
        } else {
            r
        }
    }
}

/// The ids of a list of (id, tags) entries.
pub open spec fn entry_ids(r: Seq<(String, Vec<String>)>) -> Seq<Seq<char>> {
    r.map_values(|e: (String, Vec<String>)| e.0@)
}

/// A record whose id or url is `key`.
pub open spec fn keyed_by(b: ChromeBookmark, key: Seq<char>) -> bool {
    b.id@ == key || b.url@ == key
}

/// The first `n` records, or all of them where there are fewer.
pub open spec fn first_n(rs: Seq<ChromeBookmark>, n: int) -> Seq<ChromeBookmark> {
    if n < rs.len() {
        rs.take(n)
    } else {
        rs
    }
}

/// Whether `(id, t)` is one of `tags`.
fn has_pair(tags: &Vec<(String, String)>, id: &String, t: &String) -> (r: bool)
    ensures
        r == pair_views(tags@).contains((id@, t@)),
{
    let mut i: usize = 0;
    while i < tags.len()
        invariant
            i <= tags@.len(),
            forall|k: int| 0 <= k < i ==> #[trigger] pair_views(tags@)[k] != (id@, t@),
        decreases tags@.len() - i,
    {
        assert(pair_views(tags@)[i as int] == (tags@[i as int].0@, tags@[i as int].1@));
        if tags[i].0 == *id && tags[i].1 == *t {
            assert(pair_views(tags@)[i as int] == (id@, t@));
            return true;
        }
        i = i + 1;
    }
    false
}

/// Whether `x` is one of `v`.
pub fn contains_string(v: &Vec<String>, x: &String) -> (r: bool)
    ensures
        r == strs(v@).contains(x@),
{
    let mut j: usize = 0;
    while j < v.len()
        invariant
            j <= v@.len(),
            forall|k: int| 0 <= k < j ==> #[trigger] strs(v@)[k] != x@,
        decreases v@.len() - j,
    {
        if v[j] == *x {
            assert(strs(v@)[j as int] == x@);
            return true;
        }
        j = j + 1;
    }
    false
}

/// The characters of each string.
fn char_vecs(v: &[String]) -> (r: Vec<Vec<char>>)
    ensures
        views(r@) == strs(v@),
{
    let mut r: Vec<Vec<char>> = Vec::new();
    let mut i: usize = 0;
    while i < v.len()
        invariant
            i <= v@.len(),
            views(r@) == strs(v@).subrange(0, i as int),
        decreases v@.len() - i,
    {
        let c = chars_of(v[i].as_str());
        let ghost prev = views(r@);
        r.push(c);
        assert(views(r@) =~= prev.push(v@[i as int]@));
        i = i + 1;
        assert(strs(v@).subrange(0, i as int) =~= strs(v@).subrange(0, i - 1).push(v@[i - 1]@));
    }
    assert(strs(v@).subrange(0, v@.len() as int) =~= strs(v@));
    r
}

/// Pushing a pair that is not there yet, with a non-empty tag, keeps the
/// pair list well formed.
proof fn lemma_push_pair(tags: Seq<(String, String)>, p: (String, String))
    requires
        pair_views(tags).no_duplicates(),
        forall|i: int| 0 <= i < pair_views(tags).len() ==> (#[trigger] pair_views(tags)[i]).1.len() > 0,
        !pair_views(tags).contains((p.0@, p.1@)),
        p.1@.len() > 0,
    ensures
        pair_views(tags.push(p)) == pair_views(tags).push((p.0@, p.1@)),
        pair_views(tags.push(p)).no_duplicates(),
        forall|i: int| 0 <= i < pair_views(tags.push(p)).len() ==> (#[trigger] pair_views(tags.push(p))[i]).1.len() > 0,
{
    assert(pair_views(tags.push(p)) =~= pair_views(tags).push((p.0@, p.1@)));
    lemma_push_fresh(pair_views(tags), (p.0@, p.1@));
}

impl TagManager {
    /// The invariant of the index.
    pub open spec fn inv(&self) -> bool {
        self@.wf()
    }

    /// An empty index; `text_index` says whether text search is available.
    pub fn new(text_index: bool) -> (r: Self)
        ensures
            r.inv(),
            r@.records.len() == 0,
            r@.tags.len() == 0,
            r@.fingerprint is None,
            r@.text_index == text_index,
    {
        let r = TagManager { records: Vec::new(), tags: Vec::new(), fingerprint: None, text_index };
        assert(r@.tags =~= Seq::<TagPair>::empty());
        r
    }

    /// Whether text search is available.
    pub fn fts_enabled(&self) -> (r: bool)
        ensures
            r == self@.text_index,
    {
        self.text_index
    }

    /// Whether the stored fingerprint differs from `fingerprint`.
    pub fn bookmarks_need_refresh(&self, fingerprint: &str) -> (r: bool)
        ensures
            r == self@.stale(fingerprint@),
    {
        match &self.fingerprint {
            None => true,
            Some(f) => {
                let given = fingerprint.to_owned();
                !(*f == given)
            }
        }
    }
}

impl TagManager {
    /// Replaces the whole record set and stamps `fingerprint`, all or nothing.
    /// The new records get their lower-cased fields recomputed, and every tag
    /// association whose bookmark id is not among them is deleted. Where two
    /// new records share an id, nothing changes and `DuplicateId` comes back.
    pub fn replace_bookmarks(&mut self, bookmarks: &[ChromeBookmark], fingerprint: &str) -> (r: Result<(), StoreError>)
        requires
            old(self).inv(),
        ensures
            final(self).inv(),
            r is Err <==> !ids_unique(bookmarks@),
            r is Err ==> final(self)@ == old(self)@,
            r is Ok ==> old(self)@.replaced(final(self)@, bookmarks@, fingerprint@),
    {
        if !all_ids_distinct(bookmarks) {
            return Err(StoreError::DuplicateId);
        }
        let mut records: Vec<ChromeBookmark> = Vec::new();
        let mut i: usize = 0;
        while i < bookmarks.len()
            invariant
                i <= bookmarks@.len(),
                records@.len() == i,
                forall|k: int| 0 <= k < i ==> same_source(bookmarks@[k], #[trigger] records@[k]),
            decreases bookmarks@.len() - i,
        {
            let b = &bookmarks[i];
            let folder = match &b.folder_path {
                Some(p) => Some(p.clone()),
                None => None,
            };
            let rec = ChromeBookmark::new(b.id.clone(), b.name.clone(), b.url.clone(), b.date_added.clone(), folder);
            records.push(rec);
            i = i + 1;
        }
        let ghost old_tags = pair_views(self.tags@);
        let mut kept: Vec<(String, String)> = Vec::new();
        let mut t: usize = 0;
        while t < self.tags.len()
            invariant
                t <= self.tags@.len(),
                old_tags == pair_views(self.tags@),
                pair_views(kept@) == live_tags(old_tags.subrange(0, t as int), bookmarks@),
            decreases self.tags@.len() - t,
        {
            assert(old_tags.subrange(0, t + 1).drop_last() =~= old_tags.subrange(0, t as int));
            let pair = &self.tags[t];
            if find_id(bookmarks, &pair.0) {
                let ghost before = pair_views(kept@);
                kept.push((pair.0.clone(), pair.1.clone()));
                assert(pair_views(kept@) =~= before.push(old_tags[t as int]));
            }
            t = t + 1;
        }
        assert(old_tags.subrange(0, old_tags.len() as int) =~= old_tags);
        proof { lemma_live_tags(old_tags, bookmarks@); }
        self.records = records;
        self.tags = kept;
        self.fingerprint = Some(fingerprint.to_owned());
        assert forall|a: int, b: int| 0 <= a < b < self@.records.len() implies (#[trigger] self@.records[a]).id@ != (#[trigger] self@.records[b]).id@ by {
            assert(same_source(bookmarks@[a], self@.records[a]));
            assert(same_source(bookmarks@[b], self@.records[b]));
        }
        assert forall|k: int| 0 <= k < self@.tags.len() implies (#[trigger] self@.tags[k]).1.len() > 0 by {
            assert(old_tags.contains(self@.tags[k]));
        }
        Ok(())
    }

    /// Removes every record and the stored fingerprint; tags stay.
    pub fn clear_bookmarks_index(&mut self)
        requires
            old(self).inv(),
        ensures
            final(self).inv(),
            final(self)@.records.len() == 0,
            final(self)@.fingerprint is None,
            final(self)@.tags == old(self)@.tags,
            final(self)@.text_index == old(self)@.text_index,
    {
        self.records = Vec::new();
        self.fingerprint = None;
    }

    /// The number of records.
    pub fn get_total_bookmarks(&self) -> (r: usize)
        ensures
            r == self@.records.len(),
    {
        self.records.len()
    }

    /// The first `limit` records in insertion order.
    pub fn list_bookmarks(&self, limit: usize) -> (r: Vec<ChromeBookmark>)
        ensures
            r@ == first_n(self@.records, limit as int),
    {
        let mut out: Vec<ChromeBookmark> = Vec::new();
        let mut i: usize = 0;
        while i < self.records.len() && i < limit
            invariant
                i <= self.records@.len(),
                i <= limit,
                out@ == self.records@.take(i as int),
            decreases self.records@.len() - i,
        {
            out.push(self.records[i].duplicate());
            i = i + 1;
            assert(out@ =~= self.records@.take(i as int));
        }
        assert(self.records@.take(self.records@.len() as int) =~= self.records@);
        out
    }

    /// Every record, in insertion order.
    pub fn load_all_bookmarks(&self) -> (r: Vec<ChromeBookmark>)
        ensures
            r@ == self@.records,
    {
        let r = self.list_bookmarks(self.records.len());
        r
    }

    /// The first record, in insertion order, whose id or url is `key`.
    pub fn get_bookmark_by_id_or_url(&self, key: &str) -> (r: Option<ChromeBookmark>)
        ensures
            r is None <==> forall|i: int| 0 <= i < self@.records.len() ==> !keyed_by(#[trigger] self@.records[i], key@),
            r matches Some(b) ==> exists|i: int| 0 <= i < self@.records.len() && b == self@.records[i]
                && keyed_by(b, key@) && forall|j: int| 0 <= j < i ==> !keyed_by(#[trigger] self@.records[j], key@),
    {
        let k = key.to_owned();
        let mut i: usize = 0;
        while i < self.records.len()
            invariant
                i <= self.records@.len(),
                k@ == key@,
                forall|j: int| 0 <= j < i ==> !keyed_by(#[trigger] self.records@[j], key@),
            decreases self.records@.len() - i,
        {
            if self.records[i].id == k || self.records[i].url == k {
                let b = self.records[i].duplicate();
                assert(self@.records == self.records@);
                assert(keyed_by(self@.records[i as int], key@));
                return Some(b);
            }
            i = i + 1;
        }
        None
    }
}

impl TagManager {
    /// Tags bookmark `bookmark_id` with each of `tags`, trimmed, skipping
    /// blank and repeated ones and pairs that already exist. Returns how many
    /// pairs were added.
    pub fn add_tags(&mut self, bookmark_id: &str, tags: &[String]) -> (r: usize)
        requires
            old(self).inv(),
        ensures
            final(self).inv(),
            final(self)@.records == old(self)@.records,
            final(self)@.fingerprint == old(self)@.fingerprint,
            final(self)@.text_index == old(self)@.text_index,
            final(self)@.tags == add_all(old(self)@.tags, bookmark_id@, distinct_trimmed(strs(tags@))),
            r == final(self)@.tags.len() - old(self)@.tags.len(),
    {
        let norm = distinct_trimmed_pieces(&char_vecs(tags));
        proof { lemma_distinct_trimmed(strs(tags@)); }
        let id = bookmark_id.to_owned();
        let ghost start = pair_views(self.tags@);
        let start_len = self.tags.len();
        let mut i: usize = 0;
        assert(views(norm@).subrange(0, 0) =~= Seq::<Seq<char>>::empty());
        while i < norm.len()
            invariant
                i <= norm@.len(),
                views(norm@) == distinct_trimmed(strs(tags@)),
                forall|k: int| 0 <= k < views(norm@).len() ==> (#[trigger] views(norm@)[k]).len() > 0,
                pair_views(self.tags@) == add_all(start, id@, views(norm@).subrange(0, i as int)),
                id@ == bookmark_id@,
                start.len() == start_len,
                self.inv(),
                self.records@ == old(self).records@,
                self.fingerprint == old(self).fingerprint,
                self.text_index == old(self).text_index,
            decreases norm@.len() - i,
        {
            assert(views(norm@).subrange(0, i + 1).drop_last() =~= views(norm@).subrange(0, i as int));
            assert(views(norm@)[i as int] == norm@[i as int]@);
            let t = string_of(norm[i].as_slice());
            if !has_pair(&self.tags, &id, &t) {
                proof { lemma_push_pair(self.tags@, (id, t)); }
                self.tags.push((id.clone(), t));
            }
            i = i + 1;
        }
        assert(views(norm@).subrange(0, norm@.len() as int) =~= views(norm@));
        proof { lemma_add_all_len(start, id@, views(norm@)); }
        self.tags.len() - start_len
    }

    /// Removes the pair `(bookmark_id, tag)`, with `tag` trimmed; a blank tag
    /// or an absent pair changes nothing.
    pub fn remove_tag(&mut self, bookmark_id: &str, tag: &str)
        requires
            old(self).inv(),
        ensures
            final(self).inv(),
            final(self)@.records == old(self)@.records,
            final(self)@.fingerprint == old(self)@.fingerprint,
            final(self)@.text_index == old(self)@.text_index,
            trimmed(tag@).len() == 0 ==> final(self)@.tags == old(self)@.tags,
            trimmed(tag@).len() > 0 ==> final(self)@.tags == drop_matching(old(self)@.tags, bookmark_id@,
                trimmed(tag@), true),
    {
        let t = trim_chars(chars_of(tag).as_slice());
        if t.len() == 0 {
            return;
        }
        let ts = string_of(t.as_slice());
        let id = bookmark_id.to_owned();
        self.drop_pairs(&id, &ts, true);
    }

    /// Removes every pair of bookmark `bookmark_id`.
    pub fn remove_all_tags(&mut self, bookmark_id: &str)
        requires
            old(self).inv(),
        ensures
            final(self).inv(),
            final(self)@.records == old(self)@.records,
            final(self)@.fingerprint == old(self)@.fingerprint,
            final(self)@.text_index == old(self)@.text_index,
            final(self)@.tags == drop_matching(old(self)@.tags, bookmark_id@, Seq::empty(), false),
    {
        let id = bookmark_id.to_owned();
        let none = String::new();
        self.drop_pairs(&id, &none, false);
    }

    /// Removes the pairs of bookmark `id`: all of them, or, where `exact`,
    /// only the one with tag `t`.
    fn drop_pairs(&mut self, id: &String, t: &String, exact: bool)
        requires
            old(self).inv(),
        ensures
            final(self).inv(),
            final(self).records@ == old(self).records@,
            final(self).fingerprint == old(self).fingerprint,
            final(self).text_index == old(self).text_index,
            final(self)@.records == old(self)@.records,
            final(self)@.fingerprint == old(self)@.fingerprint,
            final(self)@.text_index == old(self)@.text_index,
            final(self)@.tags == drop_matching(old(self)@.tags, id@, t@, exact),
    {
        let ghost all = pair_views(self.tags@);
        let mut kept: Vec<(String, String)> = Vec::new();
        let mut i: usize = 0;
        while i < self.tags.len()
            invariant
                i <= self.tags@.len(),
                all == pair_views(self.tags@),
                pair_views(kept@) == drop_matching(all.subrange(0, i as int), id@, t@, exact),
            decreases self.tags@.len() - i,
        {
            assert(all.subrange(0, i + 1).drop_last() =~= all.subrange(0, i as int));
            assert(all[i as int] == (self.tags@[i as int].0@, self.tags@[i as int].1@));
            let same_id = self.tags[i].0 == *id;
            let same_tag = self.tags[i].1 == *t;
            if !(same_id && (!exact || same_tag)) {
                let ghost prev = pair_views(kept@);
                kept.push((self.tags[i].0.clone(), self.tags[i].1.clone()));
                assert(pair_views(kept@) =~= prev.push(all[i as int]));
            }
            i = i + 1;
        }
        assert(all.subrange(0, all.len() as int) =~= all);
        proof { lemma_drop_matching(all, id@, t@, exact); }
        self.tags = kept;
        assert forall|k: int| 0 <= k < self@.tags.len() implies (#[trigger] self@.tags[k]).1.len() > 0 by {
            assert(all.contains(self@.tags[k]));
        }
    }

    /// The tags of bookmark `bookmark_id`, in code-point order.
    pub fn get_tags(&self, bookmark_id: &str) -> (r: Vec<String>)
        requires
            self.inv(),
        ensures
            sorted_strict(strs(r@)),
            strs(r@).to_set() == tags_of(self@.tags, bookmark_id@),
    {
        let id = bookmark_id.to_owned();
        self.tags_of_id(&id)
    }

    /// The tags of bookmark `id`, in code-point order.
    fn tags_of_id(&self, id: &String) -> (r: Vec<String>)
        requires
            self.inv(),
        ensures
            sorted_strict(strs(r@)),
            strs(r@).to_set() == tags_of(self@.tags, id@),
            strs(r@).no_duplicates(),
    {
        let ghost all = pair_views(self.tags@);
        let mut found: Vec<String> = Vec::new();
        let mut i: usize = 0;
        while i < self.tags.len()
            invariant
                i <= self.tags@.len(),
                all == pair_views(self.tags@),
                strs(found@).no_duplicates(),
                forall|t: Seq<char>| strs(found@).contains(t) <==> exists|k: int| 0 <= k < i && #[trigger] all[k] == (id@, t),
            decreases self.tags@.len() - i,
        {
            assert(all[i as int] == (self.tags@[i as int].0@, self.tags@[i as int].1@));
            if self.tags[i].0 == *id {
                let t = self.tags[i].1.clone();
                let ghost prev = strs(found@);
                let dup = contains_string(&found, &t);
                if !dup {
                    proof { lemma_push_fresh(prev, t@); }
                    found.push(t);
                    assert(strs(found@) =~= prev.push(all[i as int].1));
                }
                assert forall|x: Seq<char>| strs(found@).contains(x) implies exists|k: int| 0 <= k < i + 1 && #[trigger] all[k] == (id@, x) by {
                    if prev.contains(x) {
                        let k = choose|k: int| 0 <= k < i && #[trigger] all[k] == (id@, x);
                    } else {
                        assert(all[i as int] == (id@, x));
                    }
                }
                assert forall|x: Seq<char>| (exists|k: int| 0 <= k < i + 1 && #[trigger] all[k] == (id@, x)) implies strs(found@).contains(x) by {
                    let k = choose|k: int| 0 <= k < i + 1 && #[trigger] all[k] == (id@, x);
                    if k < i {
                        assert(prev.contains(x));
                        let m = choose|m: int| 0 <= m < prev.len() && prev[m] == x;
                        assert(strs(found@)[m] == x);
                    } else if !dup {
                        assert(strs(found@)[prev.len() as int] == x);
                    }
                }
            }
            i = i + 1;
        }
        assert forall|t: Seq<char>| strs(found@).to_set().contains(t) == tags_of(self@.tags, id@).contains(t) by {
            if all.contains((id@, t)) {
                let k = choose|k: int| 0 <= k < all.len() && all[k] == (id@, t);
            }
        }
        assert(strs(found@).to_set() =~= tags_of(self@.tags, id@));
        sort_distinct(found)
    }
}

/// The normalised, non-empty folder filters among `raw`.
pub fn normalized_filters(raw: &[String]) -> (r: Vec<Vec<Vec<char>>>)
    ensures
        filter_views(r@) == folder_filters_of(strs(raw@)),
{
    let mut r: Vec<Vec<Vec<char>>> = Vec::new();
    let mut i: usize = 0;
    while i < raw.len()
        invariant
            i <= raw@.len(),
            filter_views(r@) == folder_filters_of(strs(raw@).subrange(0, i as int)),
        decreases raw@.len() - i,
    {
        assert(strs(raw@).subrange(0, i + 1).drop_last() =~= strs(raw@).subrange(0, i as int));
        let f = filter_segment_chars(raw[i].as_str());
        if f.len() > 0 {
            let ghost prev = filter_views(r@);
            r.push(f);
            assert(filter_views(r@) =~= prev.push(filter_segments(raw@[i as int]@)));
        }
        i = i + 1;
    }
    assert(strs(raw@).subrange(0, raw@.len() as int) =~= strs(raw@));
    r
}

/// The strings of a list of character vectors.
fn strings_of(v: &Vec<Vec<char>>) -> (r: Vec<String>)
    ensures
        strs(r@) == views(v@),
{
    let mut r: Vec<String> = Vec::new();
    let mut i: usize = 0;
    while i < v.len()
        invariant
            i <= v@.len(),
            strs(r@) == views(v@).subrange(0, i as int),
        decreases v@.len() - i,
    {
        let s = string_of(v[i].as_slice());
        let ghost prev = r@;
        r.push(s);
        assert(strs(r@) =~= strs(prev).push(v@[i as int]@));
        i = i + 1;
        assert(strs(r@) =~= views(v@).subrange(0, i as int));
    }
    assert(views(v@).subrange(0, v@.len() as int) =~= views(v@));
    r
}

/// Whether `b` holds term `t` at the start of a word of a lower-cased field.
fn hits_term(b: &ChromeBookmark, t: &Vec<char>) -> (r: bool)
    ensures
        r == term_hit(*b, t@),
{
    if has_word_prefix(chars_of(b.name_lower.as_str()).as_slice(), t.as_slice()) {
        return true;
    }
    if has_word_prefix(chars_of(b.url_lower.as_str()).as_slice(), t.as_slice()) {
        return true;
    }
    match &b.folder_path_lower {
        Some(f) => has_word_prefix(chars_of(f.as_str()).as_slice(), t.as_slice()),
        None => false,
    }
}

/// Whether `b` holds every term of `terms`.
fn hits_all_terms(b: &ChromeBookmark, terms: &Vec<Vec<char>>) -> (r: bool)
    ensures
        r == forall|k: int| 0 <= k < views(terms@).len() ==> term_hit(*b, #[trigger] views(terms@)[k]),
{
    let mut k: usize = 0;
    while k < terms.len()
        invariant
            k <= terms@.len(),
            forall|j: int| 0 <= j < k ==> term_hit(*b, #[trigger] views(terms@)[j]),
        decreases terms@.len() - k,
    {
        assert(views(terms@)[k as int] == terms@[k as int]@);
        if !hits_term(b, &terms[k]) {
            return false;
        }
        k = k + 1;
    }
    true
}

impl TagManager {
    /// Whether bookmark `id` carries every tag of `want`.
    fn carries(&self, id: &String, want: &Vec<String>) -> (r: bool)
        ensures
            r == carries_all(self@.tags, id@, strs(want@)),
    {
        let mut k: usize = 0;
        while k < want.len()
            invariant
                k <= want@.len(),
                forall|j: int| 0 <= j < k ==> self@.tags.contains((id@, #[trigger] strs(want@)[j])),
            decreases want@.len() - k,
        {
            if !has_pair(&self.tags, id, &want[k]) {
                assert(!self@.tags.contains((id@, strs(want@)[k as int])));
                return false;
            }
            k = k + 1;
        }
        true
    }

    /// The first `limit` records, in insertion order, that the filter admits.
    fn select(&self, want: &Vec<String>, folders: &Vec<Vec<Vec<char>>>, terms: &Vec<Vec<char>>, limit: usize)
        -> (r: Vec<ChromeBookmark>)
        ensures
            r@ == first_n(admitted(self@.records, self@.tags,
                RecordFilter { want_tags: strs(want@), folders: filter_views(folders@), terms: views(terms@) }),
                limit as int),
    {
        let ghost f = RecordFilter { want_tags: strs(want@), folders: filter_views(folders@), terms: views(terms@) };
        let ghost rs = self.records@;
        let mut out: Vec<ChromeBookmark> = Vec::new();
        let mut i: usize = 0;
        assert(self@.records == rs);
        while i < self.records.len()
            invariant
                i <= rs.len(),
                rs == self.records@,
                rs == self@.records,
                f == (RecordFilter { want_tags: strs(want@), folders: filter_views(folders@), terms: views(terms@) }),
                out@ == first_n(admitted(rs.subrange(0, i as int), self@.tags, f), limit as int),
            decreases rs.len() - i,
        {
            let b = &self.records[i];
            assert(rs.subrange(0, i + 1).drop_last() =~= rs.subrange(0, i as int));
            assert(rs.subrange(0, i + 1).last() == *b);
            let ghost before = admitted(rs.subrange(0, i as int), self@.tags, f);
            let c1 = self.carries(&b.id, want);
            let c2 = matches_folder_filters(b, folders);
            let c3 = hits_all_terms(b, terms);
            let ok = c1 && c2 && c3;
            assert(c1 == carries_all(self@.tags, b.id@, f.want_tags));
            assert(c2 == passes_filters(*b, f.folders));
            assert(f.terms == views(terms@));
            assert(c3 == forall|k: int| 0 <= k < f.terms.len() ==> term_hit(*b, #[trigger] f.terms[k]));
            assert(ok == admits(f, self@.tags, *b));
            assert(admitted(rs.subrange(0, i + 1), self@.tags, f) == if ok { before.push(*b) } else { before });
            if ok {
                if out.len() < limit {
                    out.push(b.duplicate());
                    assert(out@ =~= first_n(before.push(*b), limit as int));
                } else {
                    assert(first_n(before.push(*b), limit as int) =~= first_n(before, limit as int));
                }
            }
            i = i + 1;
        }
        assert(rs.subrange(0, rs.len() as int) =~= rs);
        out
    }

    /// The first `limit` records, in insertion order, whose bookmark carries
    /// every tag of `tags` (trimmed, blank ones ignored); none where no tag is
    /// left.
    pub fn list_bookmarks_by_tags(&self, tags: &[String], limit: usize) -> (r: Vec<ChromeBookmark>)
        requires
            self.inv(),
        ensures
            distinct_trimmed(strs(tags@)).len() == 0 ==> r@.len() == 0,
            distinct_trimmed(strs(tags@)).len() > 0 ==> r@ == first_n(admitted(self@.records, self@.tags,
                RecordFilter { want_tags: distinct_trimmed(strs(tags@)), folders: Seq::empty(), terms: Seq::empty() }),
                limit as int),
    {
        let want = strings_of(&distinct_trimmed_pieces(&char_vecs(tags)));
        if want.len() == 0 {
            return Vec::new();
        }
        let none_f: Vec<Vec<Vec<char>>> = Vec::new();
        let none_t: Vec<Vec<char>> = Vec::new();
        assert(filter_views(none_f@) =~= Seq::empty());
        assert(views(none_t@) =~= Seq::empty());
        self.select(&want, &none_f, &none_t, limit)
    }

    /// The first `limit` records, in insertion order, that pass every folder
    /// filter of `folder_filters`; filters that normalise to nothing are
    /// ignored, and with none left this is `list_bookmarks`.
    pub fn list_bookmarks_by_folder_filters(&self, folder_filters: &[String], limit: usize) -> (r: Vec<ChromeBookmark>)
        requires
            self.inv(),
        ensures
            r@ == first_n(admitted(self@.records, self@.tags,
                RecordFilter { want_tags: Seq::empty(), folders: folder_filters_of(strs(folder_filters@)), terms: Seq::empty() }),
                limit as int),
    {
        let folders = normalized_filters(folder_filters);
        let none_w: Vec<String> = Vec::new();
        let none_t: Vec<Vec<char>> = Vec::new();
        assert(strs(none_w@) =~= Seq::empty());
        assert(views(none_t@) =~= Seq::empty());
        self.select(&none_w, &folders, &none_t, limit)
    }

    /// Text search: `None` where text search is unavailable or the query holds
    /// no term; otherwise the first `limit` records, in insertion order, that
    /// hold every term (lower-cased) at the start of a word and carry every
    /// tag of `tags` (trimmed, blank ones ignored).
    pub fn search_bookmarks_fts(&self, query: &str, tags: &[String], limit: usize) -> (r: Option<Vec<ChromeBookmark>>)
        requires
            self.inv(),
        ensures
            r is None <==> !self@.text_index || query_terms(query@).len() == 0,
            r matches Some(v) ==> v@ == first_n(admitted(self@.records, self@.tags,
                RecordFilter { want_tags: distinct_trimmed(strs(tags@)), folders: Seq::empty(),
                    terms: lowered_all(query_terms(query@)) }),
                limit as int),
    {
        let none: Vec<Vec<Vec<char>>> = Vec::new();
        assert(filter_views(none@) =~= Seq::empty());
        self.text_search(query, tags, &none, limit)
    }

    /// Text search restricted by folder filters, as `search_bookmarks_fts`
    /// with no tags and with every folder filter of `folder_filters` applied.
    pub fn search_bookmarks_fts_with_folders(&self, query: &str, folder_filters: &[String], limit: usize)
        -> (r: Option<Vec<ChromeBookmark>>)
        requires
            self.inv(),
        ensures
            r is None <==> !self@.text_index || query_terms(query@).len() == 0,
            r matches Some(v) ==> v@ == first_n(admitted(self@.records, self@.tags,
                RecordFilter { want_tags: Seq::empty(), folders: folder_filters_of(strs(folder_filters@)),
                    terms: lowered_all(query_terms(query@)) }),
                limit as int),
    {
        let none: Vec<String> = Vec::new();
        let r = self.text_search(query, none.as_slice(), &normalized_filters(folder_filters), limit);
        assert(distinct_trimmed(strs(none@)) =~= Seq::empty()) by {
            assert(strs(none@) =~= Seq::empty());
        }
        r
    }

    fn text_search(&self, query: &str, tags: &[String], folders: &Vec<Vec<Vec<char>>>, limit: usize)
        -> (r: Option<Vec<ChromeBookmark>>)
        requires
            self.inv(),
        ensures
            r is None <==> !self@.text_index || query_terms(query@).len() == 0,
            r matches Some(v) ==> v@ == first_n(admitted(self@.records, self@.tags,
                RecordFilter { want_tags: distinct_trimmed(strs(tags@)), folders: filter_views(folders@),
                    terms: lowered_all(query_terms(query@)) }),
                limit as int),
    {
        if !self.text_index {
            return None;
        }
        let terms = lowered_terms(query);
        if terms.len() == 0 {
            proof { lemma_lowered_all_len(query_terms(query@)); }
            return None;
        }
        proof { lemma_lowered_all_len(query_terms(query@)); }
        let want = strings_of(&distinct_trimmed_pieces(&char_vecs(tags)));
        Some(self.select(&want, folders, &terms, limit))
    }

    /// The ids of the bookmarks that carry every tag of `tags` (trimmed,
    /// blank and repeated ones ignored), in code-point order; none where no
    /// tag is left.
    pub fn find_bookmarks_by_tags(&self, tags: &[String]) -> (r: Vec<String>)
        requires
            self.inv(),
        ensures
            sorted_strict(strs(r@)),
            strs(r@).no_duplicates(),
            strs(r@).to_set() == ids_with_all(self@.tags, distinct_trimmed(strs(tags@))),
    {
        let want = strings_of(&distinct_trimmed_pieces(&char_vecs(tags)));
        let ghost w = strs(want@);
        if want.len() == 0 {
            let r: Vec<String> = Vec::new();
            assert(strs(r@).to_set() =~= ids_with_all(self@.tags, w));
            return r;
        }
        let ghost all = self@.tags;
        let mut found: Vec<String> = Vec::new();
        let mut i: usize = 0;
        while i < self.tags.len()
            invariant
                i <= self.tags@.len(),
                all == self@.tags,
                all == pair_views(self.tags@),
                w == strs(want@),
                w.len() > 0,
                strs(found@).no_duplicates(),
                forall|x: Seq<char>| #[trigger] strs(found@).contains(x) <==>
                    (carries_all(all, x, w) && exists|k: int| 0 <= k < i && (#[trigger] all[k]).0 == x),
            decreases self.tags@.len() - i,
        {
            assert(all[i as int] == (self.tags@[i as int].0@, self.tags@[i as int].1@));
            let id = &self.tags[i].0;
            let ghost prev = strs(found@);
            assert forall|x: Seq<char>| prev.contains(x) implies
                (carries_all(all, x, w) && exists|k: int| 0 <= k < i && (#[trigger] all[k]).0 == x) by {
                assert(strs(found@).contains(x));
            }
            let is_new = !contains_string(&found, id);
            let carries_it = self.carries(id, &want);
            if is_new && carries_it {
                proof { lemma_push_fresh(prev, id@); }
                found.push(id.clone());
                assert(strs(found@) =~= prev.push(id@));
            }
            assert forall|x: Seq<char>| #[trigger] strs(found@).contains(x) <==>
                (carries_all(all, x, w) && exists|k: int| 0 <= k < i + 1 && (#[trigger] all[k]).0 == x) by {
                if strs(found@).contains(x) {
                    if prev.contains(x) {
                        let k = choose|k: int| 0 <= k < i && (#[trigger] all[k]).0 == x;
                        assert(0 <= k < i + 1 && all[k].0 == x);
                    } else {
                        assert(is_new && carries_it);
                        let m = choose|m: int| 0 <= m < strs(found@).len() && strs(found@)[m] == x;
                        assert(m == prev.len());
                        assert(all[i as int].0 == x);
                    }
                }
                if carries_all(all, x, w) && exists|k: int| 0 <= k < i + 1 && (#[trigger] all[k]).0 == x {
                    let k = choose|k: int| 0 <= k < i + 1 && (#[trigger] all[k]).0 == x;
                    if k < i || prev.contains(x) {
                        assert(prev.contains(x));
                        let m = choose|m: int| 0 <= m < prev.len() && prev[m] == x;
                        if is_new && carries_it {
                            assert(strs(found@)[m] == x);
                        }
                    } else {
                        assert(strs(found@)[prev.len() as int] == x);
                    }
                }
            }
            i = i + 1;
        }
        assert forall|x: Seq<char>| strs(found@).to_set().contains(x) == ids_with_all(all, w).contains(x) by {
            if carries_all(all, x, w) {
                assert(all.contains((x, w[0])));
                let k = choose|k: int| 0 <= k < all.len() && all[k] == (x, w[0]);
                assert(all[k].0 == x);
            }
        }
        assert(strs(found@).to_set() =~= ids_with_all(all, w));
        sort_distinct(found)
    }
}

impl TagManager {
    /// Renames tag `old_tag` to `new_tag` (both trimmed) on every bookmark and
    /// returns how many pairs carried `old_tag`. Where a bookmark already
    /// carries `new_tag`, its pair with `old_tag` is dropped instead of being
    /// repeated. A blank name on either side changes nothing.
    pub fn rename_tag(&mut self, old_tag: &str, new_tag: &str) -> (r: usize)
        requires
            old(self).inv(),
        ensures
            final(self).inv(),
            final(self)@.records == old(self)@.records,
            final(self)@.fingerprint == old(self)@.fingerprint,
            final(self)@.text_index == old(self)@.text_index,
            trimmed(old_tag@).len() == 0 || trimmed(new_tag@).len() == 0 ==> final(self)@.tags == old(self)@.tags && r == 0,
            trimmed(old_tag@).len() > 0 && trimmed(new_tag@).len() > 0 ==>
                final(self)@.tags == renamed(old(self)@.tags, trimmed(old_tag@), trimmed(new_tag@))
                && r == count_tag(old(self)@.tags, trimmed(old_tag@)),
    {
        let from_c = trim_chars(chars_of(old_tag).as_slice());
        let to_c = trim_chars(chars_of(new_tag).as_slice());
        if from_c.len() == 0 || to_c.len() == 0 {
            return 0;
        }
        let from = string_of(from_c.as_slice());
        let to = string_of(to_c.as_slice());
        let ghost all = pair_views(self.tags@);
        let mut out: Vec<(String, String)> = Vec::new();
        let mut count: usize = 0;
        let mut i: usize = 0;
        assert(pair_views(out@) =~= Seq::<TagPair>::empty());
        while i < self.tags.len()
            invariant
                i <= self.tags@.len(),
                all == pair_views(self.tags@),
                forall|k: int| 0 <= k < all.len() ==> (#[trigger] all[k]).1.len() > 0,
                to@.len() > 0,
                pair_views(out@) == renamed(all.subrange(0, i as int), from@, to@),
                pair_views(out@).no_duplicates(),
                forall|k: int| 0 <= k < pair_views(out@).len() ==> (#[trigger] pair_views(out@)[k]).1.len() > 0,
                count == count_tag(all.subrange(0, i as int), from@),
                count <= i,
            decreases self.tags@.len() - i,
        {
            assert(all.subrange(0, i + 1).drop_last() =~= all.subrange(0, i as int));
            assert(all[i as int] == (self.tags@[i as int].0@, self.tags@[i as int].1@));
            let hit = self.tags[i].1 == from;
            let id = self.tags[i].0.clone();
            let tag = if hit { to.clone() } else { self.tags[i].1.clone() };
            if hit {
                count = count + 1;
            }
            if !has_pair(&out, &id, &tag) {
                proof { lemma_push_pair(out@, (id, tag)); }
                out.push((id, tag));
            }
            i = i + 1;
        }
        assert(all.subrange(0, all.len() as int) =~= all);
        self.tags = out;
        count
    }

    /// The distinct tags or bookmark ids of the pairs, in order of first use.
    fn distinct_column(&self, second: bool) -> (r: Vec<String>)
        ensures
            strs(r@) == firsts(if second { tag_column(self@.tags) } else { id_column(self@.tags) }),
    {
        let ghost col = if second { tag_column(self@.tags) } else { id_column(self@.tags) };
        let mut out: Vec<String> = Vec::new();
        let mut i: usize = 0;
        while i < self.tags.len()
            invariant
                i <= self.tags@.len(),
                col == (if second { tag_column(self@.tags) } else { id_column(self@.tags) }),
                col.len() == self.tags@.len(),
                strs(out@) == firsts(col.subrange(0, i as int)),
            decreases self.tags@.len() - i,
        {
            assert(col.subrange(0, i + 1).drop_last() =~= col.subrange(0, i as int));
            assert(self@.tags[i as int] == (self.tags@[i as int].0@, self.tags@[i as int].1@));
            let v = if second { self.tags[i].1.clone() } else { self.tags[i].0.clone() };
            assert(v@ == col[i as int]);
            if !contains_string(&out, &v) {
                let ghost prev = out@;
                out.push(v);
                assert(strs(out@) =~= strs(prev).push(col[i as int]));
            }
            i = i + 1;
        }
        assert(col.subrange(0, col.len() as int) =~= col);
        out
    }

    /// How many distinct tags are in use.
    pub fn get_tag_count(&self) -> (r: usize)
        ensures
            r == firsts(tag_column(self@.tags)).len(),
    {
        self.distinct_column(true).len()
    }

    /// How many distinct bookmarks carry a tag.
    pub fn get_bookmark_count(&self) -> (r: usize)
        ensures
            r == firsts(id_column(self@.tags)).len(),
    {
        self.distinct_column(false).len()
    }

    /// Each tag in use, in code-point order, with the number of bookmarks
    /// that carry it.
    pub fn get_tag_counts_by_name(&self) -> (r: Vec<(String, usize)>)
        ensures
            count_views(r@) == tag_counts(self@.tags),
    {
        let firsts_list = self.distinct_column(true);
        proof { lemma_firsts(tag_column(self@.tags)); }
        let names = sort_distinct(firsts_list);
        proof {
            lemma_sorted_unique(strs(names@), sorted_tags(self@.tags));
        }
        let mut out: Vec<(String, usize)> = Vec::new();
        let mut k: usize = 0;
        while k < names.len()
            invariant
                k <= names@.len(),
                strs(names@) == sorted_tags(self@.tags),
                count_views(out@) == tag_counts(self@.tags).subrange(0, k as int),
            decreases names@.len() - k,
        {
            let t = &names[k];
            let mut c: usize = 0;
            let mut i: usize = 0;
            while i < self.tags.len()
                invariant
                    i <= self.tags@.len(),
                    c == count_tag(self@.tags.subrange(0, i as int), t@),
                    c <= i,
                decreases self.tags@.len() - i,
            {
                assert(self@.tags.subrange(0, i + 1).drop_last() =~= self@.tags.subrange(0, i as int));
                assert(self@.tags[i as int] == (self.tags@[i as int].0@, self.tags@[i as int].1@));
                if self.tags[i].1 == *t {
                    c = c + 1;
                }
                i = i + 1;
            }
            assert(self@.tags.subrange(0, self@.tags.len() as int) =~= self@.tags);
            let ghost prev = count_views(out@);
            out.push((t.clone(), c));
            assert(count_views(out@) =~= prev.push((t@, c as nat)));
            k = k + 1;
            assert(count_views(out@) =~= tag_counts(self@.tags).subrange(0, k as int));
        }
        assert(tag_counts(self@.tags).subrange(0, names@.len() as int) =~= tag_counts(self@.tags));
        out
    }

    /// Each tag in use with the number of bookmarks that carry it, the most
    /// used first and, on equal counts, in code-point order.
    pub fn get_all_tags(&self) -> (r: Vec<(String, usize)>)
        ensures
            exists|picks: Seq<usize>| {
                &&& #[trigger] is_top_k(count_keys(tag_counts(self@.tags)), tag_counts(self@.tags).len() as int, picks)
                &&& picks.len() == r@.len()
                &&& forall|t: int| 0 <= t < picks.len() ==> #[trigger] count_views(r@)[t] == tag_counts(self@.tags)[picks[t] as int]
            },
    {
        let entries = self.get_tag_counts_by_name();
        let ghost es = tag_counts(self@.tags);
        let mut keys: Vec<i128> = Vec::new();
        let mut i: usize = 0;
        while i < entries.len()
            invariant
                i <= entries@.len(),
                count_views(entries@) == es,
                keys@ == count_keys(es).subrange(0, i as int),
            decreases entries@.len() - i,
        {
            assert(count_views(entries@)[i as int] == (entries@[i as int].0@, entries@[i as int].1 as nat));
            keys.push(entries[i].1 as i128 + 1);
            i = i + 1;
            assert(keys@ =~= count_keys(es).subrange(0, i as int));
        }
        assert(count_keys(es).subrange(0, es.len() as int) =~= count_keys(es));
        let picks = select_top_k(&keys, entries.len());
        let mut out: Vec<(String, usize)> = Vec::new();
        let mut t: usize = 0;
        while t < picks.len()
            invariant
                t <= picks@.len(),
                is_top_k(keys@, entries@.len() as int, picks@),
                keys@.len() == entries@.len(),
                count_views(entries@) == es,
                out@.len() == t,
                forall|u: int| 0 <= u < t ==> #[trigger] count_views(out@)[u] == es[picks@[u] as int],
            decreases picks@.len() - t,
        {
            let q = picks[t];
            assert(q < keys@.len());
            assert(count_views(entries@)[q as int] == (entries@[q as int].0@, entries@[q as int].1 as nat));
            let ghost prev = out@;
            out.push((entries[q].0.clone(), entries[q].1));
            assert(count_views(out@)[t as int] == (entries@[q as int].0@, entries@[q as int].1 as nat));
            assert forall|u: int| 0 <= u < t + 1 implies #[trigger] count_views(out@)[u] == es[picks@[u] as int] by {
                if u < t {
                    assert(out@[u] == prev[u]);
                    assert(count_views(out@)[u] == count_views(prev)[u]);
                }
            }
            t = t + 1;
        }
        out
    }

    /// For each distinct id of `bookmark_ids` that carries a tag, in order of
    /// first mention, the id and its tags in code-point order.
    pub fn get_tags_for_bookmarks(&self, bookmark_ids: &[String]) -> (r: Vec<(String, Vec<String>)>)
        requires
            self.inv(),
        ensures
            entry_ids(r@) == tagged_ids(self@.tags, strs(bookmark_ids@)),
            forall|a: int, b: int| 0 <= a < b < r@.len() ==> (#[trigger] r@[a]).0@ != (#[trigger] r@[b]).0@,
            forall|k: int| 0 <= k < r@.len() ==> {
                &&& strs(bookmark_ids@).contains((#[trigger] r@[k]).0@)
                &&& r@[k].1@.len() > 0
                &&& sorted_strict(strs(r@[k].1@))
                &&& strs(r@[k].1@).to_set() == tags_of(self@.tags, r@[k].0@)
            },
            forall|j: int| 0 <= j < bookmark_ids@.len() && tags_of(self@.tags, #[trigger] bookmark_ids@[j]@) != Set::<Seq<char>>::empty()
                ==> exists|k: int| 0 <= k < r@.len() && (#[trigger] r@[k]).0@ == bookmark_ids@[j]@,
    {
        let mut out: Vec<(String, Vec<String>)> = Vec::new();
        let mut seen: Vec<String> = Vec::new();
        let mut i: usize = 0;
        assert(entry_ids(out@) =~= Seq::<Seq<char>>::empty());
        while i < bookmark_ids.len()
            invariant
                self.inv(),
                i <= bookmark_ids@.len(),
                out@.len() <= seen@.len(),
                forall|a: int, b: int| 0 <= a < b < out@.len() ==> (#[trigger] out@[a]).0@ != (#[trigger] out@[b]).0@,
                forall|k: int| 0 <= k < out@.len() ==> {
                    &&& strs(bookmark_ids@).contains((#[trigger] out@[k]).0@)
                    &&& out@[k].1@.len() > 0
                    &&& sorted_strict(strs(out@[k].1@))
                    &&& strs(out@[k].1@).to_set() == tags_of(self@.tags, out@[k].0@)
                },
                forall|k: int| 0 <= k < out@.len() ==> strs(seen@).contains((#[trigger] out@[k]).0@),
                forall|x: Seq<char>| #[trigger] strs(seen@).contains(x) ==>
                    (tags_of(self@.tags, x) != Set::<Seq<char>>::empty() ==> exists|k: int| 0 <= k < out@.len() && (#[trigger] out@[k]).0@ == x),
                forall|j: int| 0 <= j < i ==> strs(seen@).contains(#[trigger] bookmark_ids@[j]@),
                entry_ids(out@) == tagged_ids(self@.tags, strs(bookmark_ids@).subrange(0, i as int)),
            decreases bookmark_ids@.len() - i,
        {
            let id = &bookmark_ids[i];
            assert(strs(bookmark_ids@)[i as int] == id@);
            assert(strs(bookmark_ids@).subrange(0, i + 1).drop_last() =~= strs(bookmark_ids@).subrange(0, i as int));
            let ghost r0 = tagged_ids(self@.tags, strs(bookmark_ids@).subrange(0, i as int));
            let ghost ids0 = entry_ids(out@);
            if !contains_string(&seen, id) {
                let ts = self.tags_of_id(id);
                let has_tags = ts.len() > 0;
                let ghost tsv = strs(ts@);
                let ghost prev_seen = strs(seen@);
                let ghost prev_out = out@;
                seen.push(id.clone());
                assert(strs(seen@) =~= prev_seen.push(id@));
                if ts.len() > 0 {
                    out.push((id.clone(), ts));
                    assert(out@[out@.len() - 1].0@ == id@);
                    assert forall|a: int, b: int| 0 <= a < b < out@.len() implies (#[trigger] out@[a]).0@ != (#[trigger] out@[b]).0@ by {
                        if b == out@.len() - 1 {
                            assert(prev_out[a] == out@[a]);
                            assert(prev_seen.contains(out@[a].0@));
                        } else {
                            assert(prev_out[a] == out@[a] && prev_out[b] == out@[b]);
                        }
                    }
                    assert forall|x: Seq<char>| #[trigger] strs(seen@).contains(x) && tags_of(self@.tags, x) != Set::<Seq<char>>::empty()
                        implies exists|k: int| 0 <= k < out@.len() && (#[trigger] out@[k]).0@ == x by {
                        if x != id@ {
                            assert(prev_seen.contains(x));
                            if tags_of(self@.tags, x) != Set::<Seq<char>>::empty() {
                                let k = choose|k: int| 0 <= k < prev_out.len() && (#[trigger] prev_out[k]).0@ == x;
                                assert(out@[k] == prev_out[k]);
                            }
                        } else {
                            assert(out@[out@.len() - 1].0@ == x);
                        }
                    }
                    assert forall|k: int| 0 <= k < out@.len() implies strs(seen@).contains((#[trigger] out@[k]).0@) by {
                        if k < prev_out.len() {
                            assert(out@[k] == prev_out[k]);
                            assert(prev_seen.contains(prev_out[k].0@));
                            let m = choose|m: int| 0 <= m < prev_seen.len() && prev_seen[m] == prev_out[k].0@;
                            assert(strs(seen@)[m] == prev_seen[m]);
                        } else {
                            assert(strs(seen@)[prev_seen.len() as int] == id@);
                        }
                    }
                } else {
                    assert(strs(ts@).to_set() =~= Set::<Seq<char>>::empty());
                    assert forall|x: Seq<char>| #[trigger] strs(seen@).contains(x) && tags_of(self@.tags, x) != Set::<Seq<char>>::empty()
                        implies exists|k: int| 0 <= k < out@.len() && (#[trigger] out@[k]).0@ == x by {
                        if x != id@ {
                            assert(prev_seen.contains(x));
                        }
                    }
                    assert forall|k: int| 0 <= k < out@.len() implies strs(seen@).contains((#[trigger] out@[k]).0@) by {
                        assert(prev_seen.contains(out@[k].0@));
                        let m = choose|m: int| 0 <= m < prev_seen.len() && prev_seen[m] == out@[k].0@;
                        assert(strs(seen@)[m] == prev_seen[m]);
                    }
                }
                assert forall|j: int| 0 <= j < i + 1 implies strs(seen@).contains(#[trigger] bookmark_ids@[j]@) by {
                    if j < i {
                        assert(prev_seen.contains(bookmark_ids@[j]@));
                        let m = choose|m: int| 0 <= m < prev_seen.len() && prev_seen[m] == bookmark_ids@[j]@;
                        assert(strs(seen@)[m] == prev_seen[m]);
                    } else {
                        assert(strs(seen@)[prev_seen.len() as int] == id@);
                    }
                }
                assert(!r0.contains(id@)) by {
                    if r0.contains(id@) {
                        let m = choose|m: int| 0 <= m < r0.len() && r0[m] == id@;
                        assert(ids0[m] == prev_out[m].0@);
                    }
                }
                if has_tags {
                    assert(entry_ids(out@) =~= r0.push(id@));
                    assert(tsv.to_set().contains(tsv[0]));
                    assert(tags_of(self@.tags, id@).contains(tsv[0]));
                } else {
                    assert(entry_ids(out@) =~= r0);
                }
            } else {
                proof {
                    assert(strs(seen@).contains(id@));
                    if tags_of(self@.tags, id@) != Set::<Seq<char>>::empty() {
                        let k = choose|k: int| 0 <= k < out@.len() && (#[trigger] out@[k]).0@ == id@;
                        assert(ids0[k] == id@);
                        assert(r0.contains(id@));
                    }
                    assert(entry_ids(out@) =~= r0);
                }
            }
            i = i + 1;
        }
        assert(strs(bookmark_ids@).subrange(0, bookmark_ids@.len() as int) =~= strs(bookmark_ids@));
        out
    }
}

/// Why a stored index could not be taken back.
#[derive(Debug, PartialEq, Eq, Structural)]
pub enum RestoreError {
    /// Two stored records share an id.
    DuplicateId,
    /// A tag pair is stored twice.
    DuplicateTag,
    /// A stored tag is empty.
    EmptyTag,
}

impl TagManager {
    /// An index holding stored contents: the records (lower-cased fields
    /// recomputed), the tag pairs and the fingerprint, checked against the
    /// invariant.
    pub fn restore(records: &[ChromeBookmark], tags: Vec<(String, String)>, fingerprint: Option<String>, text_index: bool)
        -> (r: Result<Self, RestoreError>)
        ensures
            r matches Ok(m) ==> m.inv() && m@.records.len() == records@.len()
                && (forall|i: int| 0 <= i < records@.len() ==> same_source(records@[i], #[trigger] m@.records[i]))
                && m@.tags == pair_views(tags@) && m@.text_index == text_index
                && m@.fingerprint == (match fingerprint { Some(f) => Some(f@), None => None::<Seq<char>> }),
            r is Err <==> !ids_unique(records@) || !pair_views(tags@).no_duplicates()
                || exists|i: int| 0 <= i < tags@.len() && (#[trigger] tags@[i]).1@.len() == 0,
            r == Err::<Self, RestoreError>(RestoreError::DuplicateId) <==> !ids_unique(records@),
    {
        let mut m = TagManager::new(text_index);
        if m.replace_bookmarks(records, "").is_err() {
            return Err(RestoreError::DuplicateId);
        }
        let ghost pv = pair_views(tags@);
        let mut i: usize = 0;
        while i < tags.len()
            invariant
                i <= tags@.len(),
                pv == pair_views(tags@),
                ids_unique(records@),
                forall|k: int| 0 <= k < i ==> (#[trigger] tags@[k]).1@.len() > 0,
                forall|a: int, b: int| 0 <= a < b < tags@.len() && a < i ==> (#[trigger] pv[a]) != (#[trigger] pv[b]),
            decreases tags@.len() - i,
        {
            assert(pv[i as int] == (tags@[i as int].0@, tags@[i as int].1@));
            if tags[i].1.as_str().is_empty() {
                return Err(RestoreError::EmptyTag);
            }
            let mut j: usize = i + 1;
            while j < tags.len()
                invariant
                    i < j <= tags@.len(),
                    pv == pair_views(tags@),
                    ids_unique(records@),
                    forall|b: int| i < b < j ==> pv[i as int] != #[trigger] pv[b],
                decreases tags@.len() - j,
            {
                assert(pv[j as int] == (tags@[j as int].0@, tags@[j as int].1@));
                if tags[i].0 == tags[j].0 && tags[i].1 == tags[j].1 {
                    assert(!pv.no_duplicates()) by {
                        assert(pv[i as int] == pv[j as int]);
                    }
                    return Err(RestoreError::DuplicateTag);
                }
                j = j + 1;
            }
            i = i + 1;
        }
        assert(pv.no_duplicates());
        m.tags = tags;
        m.fingerprint = fingerprint;
        assert forall|k: int| 0 <= k < m@.tags.len() implies (#[trigger] m@.tags[k]).1.len() > 0 by {
            assert(m@.tags[k] == (tags@[k].0@, tags@[k].1@));
        }
        Ok(m)
    }

    /// The stored tag pairs, in insertion order.
    pub fn tag_pairs(&self) -> (r: Vec<(String, String)>)
        ensures
            pair_views(r@) == self@.tags,
    {
        let mut out: Vec<(String, String)> = Vec::new();
        let mut i: usize = 0;
        while i < self.tags.len()
            invariant
                i <= self.tags@.len(),
                pair_views(out@) == pair_views(self.tags@).subrange(0, i as int),
            decreases self.tags@.len() - i,
        {
            let ghost prev = pair_views(out@);
            out.push((self.tags[i].0.clone(), self.tags[i].1.clone()));
            assert(pair_views(out@) =~= prev.push(pair_views(self.tags@)[i as int]));
            i = i + 1;
            assert(pair_views(out@) =~= pair_views(self.tags@).subrange(0, i as int));
        }
        assert(pair_views(self.tags@).subrange(0, self.tags@.len() as int) =~= pair_views(self.tags@));
        out
    }

    /// The stored fingerprint.
    pub fn fingerprint(&self) -> (r: Option<String>)
        ensures
            (match r { Some(f) => Some(f@), None => None::<Seq<char>> }) == self@.fingerprint,
    {
        match &self.fingerprint {
            Some(f) => Some(f.clone()),
            None => None,
        }
    }
}

impl TagManager {
    /// The ids of the bookmarks that carry at least one of `tags` (compared
    /// as given), in code-point order.
    pub fn find_bookmarks_by_any_tag(&self, tags: &[String]) -> (r: Vec<String>)
        requires
            self.inv(),
        ensures
            sorted_strict(strs(r@)),
            strs(r@).no_duplicates(),
            strs(r@).to_set() == ids_with_any(self@.tags, strs(tags@)),
    {
        let want = strings_of(&char_vecs(tags));
        let ghost w = strs(want@);
        let ghost all = self@.tags;
        let mut found: Vec<String> = Vec::new();
        let mut i: usize = 0;
        while i < self.tags.len()
            invariant
                i <= self.tags@.len(),
                all == self@.tags,
                all == pair_views(self.tags@),
                w == strs(want@),
                w == strs(tags@),
                strs(found@).no_duplicates(),
                forall|x: Seq<char>| #[trigger] strs(found@).contains(x) <==>
                    exists|k: int| 0 <= k < i && (#[trigger] all[k]).0 == x && w.contains(all[k].1),
            decreases self.tags@.len() - i,
        {
            assert(all[i as int] == (self.tags@[i as int].0@, self.tags@[i as int].1@));
            let id = &self.tags[i].0;
            let ghost prev = strs(found@);
            let is_new = !contains_string(&found, id);
            let wanted = contains_string(&want, &self.tags[i].1);
            if is_new && wanted {
                proof { lemma_push_fresh(prev, id@); }
                found.push(id.clone());
                assert(strs(found@) =~= prev.push(id@));
            }
            assert forall|x: Seq<char>| #[trigger] strs(found@).contains(x) <==>
                exists|k: int| 0 <= k < i + 1 && (#[trigger] all[k]).0 == x && w.contains(all[k].1) by {
                if strs(found@).contains(x) {
                    if prev.contains(x) {
                        let k = choose|k: int| 0 <= k < i && (#[trigger] all[k]).0 == x && w.contains(all[k].1);
                        assert(0 <= k < i + 1);
                    } else {
                        assert(is_new && wanted);
                        let m = choose|m: int| 0 <= m < strs(found@).len() && strs(found@)[m] == x;
                        assert(m == prev.len());
                        assert(all[i as int].0 == x);
                    }
                }
                if exists|k: int| 0 <= k < i + 1 && (#[trigger] all[k]).0 == x && w.contains(all[k].1) {
                    let k = choose|k: int| 0 <= k < i + 1 && (#[trigger] all[k]).0 == x && w.contains(all[k].1);
                    if k < i || prev.contains(x) {
                        assert(prev.contains(x));
                        let m = choose|m: int| 0 <= m < prev.len() && prev[m] == x;
                        if is_new && wanted {
                            assert(strs(found@)[m] == x);
                        }
                    } else {
                        assert(strs(found@)[prev.len() as int] == x);
                    }
                }
            }
            i = i + 1;
        }
        assert forall|x: Seq<char>| strs(found@).to_set().contains(x) == ids_with_any(all, w).contains(x) by {
            if ids_with_any(all, w).contains(x) {
                let k = choose|k: int| 0 <= k < w.len() && all.contains((x, #[trigger] w[k]));
                let j = choose|j: int| 0 <= j < all.len() && all[j] == (x, w[k]);
                assert(w.contains(all[j].1));
                assert(strs(found@).contains(x));
            }
            if strs(found@).contains(x) {
                let j = choose|j: int| 0 <= j < all.len() && (#[trigger] all[j]).0 == x && w.contains(all[j].1);
                let k = choose|k: int| 0 <= k < w.len() && w[k] == all[j].1;
                assert(all.contains((x, w[k])));
            }
        }
        assert(strs(found@).to_set() =~= ids_with_any(all, w));
        sort_distinct(found)
    }
}

proof fn lemma_firsts(s: Seq<Seq<char>>)
    ensures
        firsts(s).no_duplicates(),
        firsts(s).to_set() == s.to_set(),
    decreases s.len(),
{
    if s.len() > 0 {
        let d = s.drop_last();
        lemma_firsts(d);
        let r = firsts(d);
        if !r.contains(s.last()) {
            lemma_push_fresh(r, s.last());
        }
        assert forall|x: Seq<char>| firsts(s).to_set().contains(x) <==> s.to_set().contains(x) by {
            if firsts(s).contains(x) {
                if r.contains(x) {
                    assert(r.to_set().contains(x));
                    assert(d.contains(x));
                    let k = choose|k: int| 0 <= k < d.len() && d[k] == x;
                    assert(s[k] == x);
                } else {
                    assert(s[s.len() - 1] == x);
                }
            }
            if s.contains(x) {
                let k = choose|k: int| 0 <= k < s.len() && s[k] == x;
                if k < d.len() {
                    assert(d[k] == x);
                    assert(d.to_set().contains(x));
                    assert(r.contains(x));
                    let m = choose|m: int| 0 <= m < r.len() && r[m] == x;
                    if !r.contains(s.last()) {
                        assert(r.push(s.last())[m] == x);
                    }
                } else if !r.contains(s.last()) {
                    assert(r.push(s.last())[r.len() as int] == x);
                }
            }
        }
        assert(firsts(s).to_set() =~= s.to_set());
    } else {
        assert(firsts(s).to_set() =~= s.to_set());
    }
}

proof fn lemma_lowered_all_len(ts: Seq<Seq<char>>)
    ensures
        lowered_all(ts).len() == ts.len(),
    decreases ts.len(),
{
    if ts.len() > 0 {
        lemma_lowered_all_len(ts.drop_last());
    }
}

proof fn lemma_add_all_len(tags: Seq<TagPair>, id: Seq<char>, ts: Seq<Seq<char>>)
    ensures
        add_all(tags, id, ts).len() >= tags.len(),
    decreases ts.len(),
{
    if ts.len() > 0 {
        lemma_add_all_len(tags, id, ts.drop_last());
    }
}

proof fn lemma_drop_matching(tags: Seq<TagPair>, id: Seq<char>, t: Seq<char>, exact: bool)
    ensures
        forall|x: TagPair| drop_matching(tags, id, t, exact).contains(x) ==> tags.contains(x),
        tags.no_duplicates() ==> drop_matching(tags, id, t, exact).no_duplicates(),
    decreases tags.len(),
{
    if tags.len() > 0 {
        let d = tags.drop_last();
        lemma_drop_matching(d, id, t, exact);
        assert forall|x: TagPair| drop_matching(tags, id, t, exact).contains(x) implies tags.contains(x) by {
            if drop_matching(d, id, t, exact).contains(x) {
                assert(d.contains(x));
                let k = choose|k: int| 0 <= k < d.len() && d[k] == x;
                assert(tags[k] == x);
            } else {
                assert(tags[tags.len() - 1] == x);
            }
        }
        if tags.no_duplicates() {
            assert(d.no_duplicates()) by {
                assert forall|a: int, b: int| 0 <= a < d.len() && 0 <= b < d.len() && a != b implies d[a] != d[b] by {
                    assert(tags[a] == d[a] && tags[b] == d[b]);
                }
            }
            let last = tags.last();
            assert(!d.contains(last)) by {
                if d.contains(last) {
                    let k = choose|k: int| 0 <= k < d.len() && d[k] == last;
                    assert(tags[k] == tags[tags.len() - 1]);
                }
            }
            if !removes(last, id, t, exact) {
                lemma_push_fresh(drop_matching(d, id, t, exact), last);
            }
        }
    }
}

} // verus!
