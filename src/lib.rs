//! Local bookmark index: folder filtering, ranked search, a tag store and
//! the index state with all-or-nothing replacement, with their contracts
//! proved by Verus.

// Character-level helpers and the code-point order on strings.
pub mod text;
pub mod order;

// Records and the bookmark tree they come from.
pub mod record;
pub mod bookmark;

// Folder filters, text-search terms and top-K selection.
pub mod folder;
pub mod fts;
pub mod topk;

// The index and its tag associations.
pub mod store;
pub mod index;
pub mod laws;

// Ranked search and answering a request.
pub mod searcher;
pub mod lookup;

// Query parsing and the launcher-side helpers.
pub mod query;
pub mod workflow;
pub mod browser;
pub mod cli;
