//! The command line of the launcher, as plain values.

use vstd::prelude::*;

verus! {

/// The parsed command line.
#[derive(Debug)]
pub struct Opt {
    pub cmd: SubCommand,
}

/// The commands of the launcher.
#[derive(Debug)]
#[allow(inconsistent_fields)]
pub enum SubCommand {
    /// Search bookmarks.
    Search {
        query: Vec<String>,
        tags: Option<String>,
        folders: Option<String>,
        fuzzy: bool,
        limit: usize,
    },
    /// Tag a bookmark, given by url or id.
    Tag { bookmark: String, tags: Vec<String> },
    /// Remove a tag from a bookmark.
    Untag { bookmark: String, tag: String },
    /// List the tags in use, optionally those containing a prefix.
    ListTags { prefix: Option<String> },
    /// Show the tags of a bookmark.
    ShowTags { bookmark: String },
    /// Rename a tag.
    RenameTag { old_tag: String, new_tag: String },
    /// Rescan the bookmarks and rebuild the index.
    Refresh,
    /// Show how many bookmarks are indexed.
    Stats,
    /// List the launcher's actions matching a keyword.
    Actions { query: Vec<String> },
}

} // verus!
