//! The bookmark index without the tag operations: a view of the same store
//! that offers the record-level queries only.

use vstd::prelude::*;
use crate::folder::strs;
use crate::fts::{lowered_all, query_terms};
use crate::record::ChromeBookmark;
use crate::store::{admitted, first_n, folder_filters_of, ids_unique, IndexState, RecordFilter, StoreError, TagManager};

verus! {

/// The record index.
pub struct BookmarkIndex {
    store: TagManager,
}

impl View for BookmarkIndex {
    type V = IndexState;

    closed spec fn view(&self) -> IndexState {
        self.store@
    }
}

impl BookmarkIndex {
    /// The invariant of the index.
    pub open spec fn inv(&self) -> bool {
        self@.wf()
    }

    /// An empty index; `text_index` says whether text search is available.
    pub fn new(text_index: bool) -> (r: Self)
        ensures
            r.inv(),
            r@.records.len() == 0,
            r@.tags.len() == 0,
            r@.fingerprint is None,
            r@.text_index == text_index,
    {
        BookmarkIndex { store: TagManager::new(text_index) }
    }

    /// The underlying store, for the queries that need its tags.
    pub fn store(&self) -> (r: &TagManager)
        ensures
            r@ == self@,
            r.inv() == self.inv(),
    {
        &self.store
    }

    /// Whether the stored fingerprint differs from `fingerprint`.
    pub fn bookmarks_need_refresh(&self, fingerprint: &str) -> (r: bool)
        ensures
            r == self@.stale(fingerprint@),
    {
        self.store.bookmarks_need_refresh(fingerprint)
    }

    /// Removes every record and the stored fingerprint.
    pub fn clear_bookmarks_index(&mut self)
        requires
            old(self).inv(),
        ensures
            final(self).inv(),
            final(self)@.records.len() == 0,
            final(self)@.fingerprint is None,
            final(self)@.tags == old(self)@.tags,
            final(self)@.text_index == old(self)@.text_index,
    {
        self.store.clear_bookmarks_index()
    }

    /// Replaces the whole record set and stamps `fingerprint`, all or
    /// nothing; see `TagManager::replace_bookmarks`.
    pub fn replace_bookmarks(&mut self, bookmarks: &[ChromeBookmark], fingerprint: &str) -> (r: Result<(), StoreError>)
        requires
            old(self).inv(),
        ensures
            final(self).inv(),
            r is Err <==> !ids_unique(bookmarks@),
            r is Err ==> final(self)@ == old(self)@,
            r is Ok ==> old(self)@.replaced(final(self)@, bookmarks@, fingerprint@),
    {
        self.store.replace_bookmarks(bookmarks, fingerprint)
    }

    /// The number of records.
    pub fn get_total_bookmarks(&self) -> (r: usize)
        ensures
            r == self@.records.len(),
    {
        self.store.get_total_bookmarks()
    }

    /// Every record, in insertion order.
    pub fn load_all_bookmarks(&self) -> (r: Vec<ChromeBookmark>)
        ensures
            r@ == self@.records,
    {
        self.store.load_all_bookmarks()
    }

    /// The first `limit` records in insertion order.
    pub fn list_bookmarks(&self, limit: usize) -> (r: Vec<ChromeBookmark>)
        ensures
            r@ == first_n(self@.records, limit as int),
    {
        self.store.list_bookmarks(limit)
    }

    /// The first `limit` records, in insertion order, that pass every folder
    /// filter; see `TagManager::list_bookmarks_by_folder_filters`.
    pub fn list_bookmarks_by_folder_filters(&self, folder_filters: &[String], limit: usize) -> (r: Vec<ChromeBookmark>)
        requires
            self.inv(),
        ensures
            r@ == first_n(admitted(self@.records, self@.tags,
                RecordFilter { want_tags: Seq::empty(), folders: folder_filters_of(strs(folder_filters@)), terms: Seq::empty() }),
                limit as int),
    {
        self.store.list_bookmarks_by_folder_filters(folder_filters, limit)
    }

    /// Text search without tag constraints; `None` where text search is
    /// unavailable or the query holds no term.
    pub fn search_bookmarks_fts(&self, query: &str, limit: usize) -> (r: Option<Vec<ChromeBookmark>>)
        requires
            self.inv(),
        ensures
            r is None <==> !self@.text_index || query_terms(query@).len() == 0,
            r matches Some(v) ==> v@ == first_n(admitted(self@.records, self@.tags,
                RecordFilter { want_tags: Seq::empty(), folders: Seq::empty(), terms: lowered_all(query_terms(query@)) }),
                limit as int),
    {
        let none: Vec<String> = Vec::new();
        let r = self.store.search_bookmarks_fts(query, none.as_slice(), limit);
        assert(crate::text::distinct_trimmed(strs(none@)) =~= Seq::empty()) by {
            assert(strs(none@) =~= Seq::empty());
        }
        r
    }

    /// Text search restricted by folder filters; see
    /// `TagManager::search_bookmarks_fts_with_folders`.
    pub fn search_bookmarks_fts_with_folders(&self, query: &str, folder_filters: &[String], limit: usize)
        -> (r: Option<Vec<ChromeBookmark>>)
        requires
            self.inv(),
        ensures
            r is None <==> !self@.text_index || query_terms(query@).len() == 0,
            r matches Some(v) ==> v@ == first_n(admitted(self@.records, self@.tags,
                RecordFilter { want_tags: Seq::empty(), folders: folder_filters_of(strs(folder_filters@)),
                    terms: lowered_all(query_terms(query@)) }),
                limit as int),
    {
        self.store.search_bookmarks_fts_with_folders(query, folder_filters, limit)
    }
}

} // verus!
