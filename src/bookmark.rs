//! The bookmark file's tree of folders and links, flattened into records.

use vstd::prelude::*;
use crate::record::ChromeBookmark;
use crate::text::{chars_of, same_chars, string_of, trim_chars, trimmed};

verus! {

/// A node of the bookmark tree: a link (`"url"`) or a folder (`"folder"`).
#[derive(Debug)]
pub struct BookmarkNode {
    pub node_type: String,
    pub id: String,
    pub name: String,
    pub url: Option<String>,
    pub date_added: Option<String>,
    pub children: Vec<BookmarkNode>,
}

/// The roots of the bookmark tree.
#[derive(Debug)]
pub struct BookmarkRoots {
    pub bookmark_bar: BookmarkNode,
    pub other: BookmarkNode,
    pub synced: Option<BookmarkNode>,
}

/// A whole bookmark file.
#[derive(Debug)]
pub struct ChromeBookmarks {
    pub roots: BookmarkRoots,
}

/// A link found in the tree: the node and the folder path above it.
pub type Found = (BookmarkNode, Seq<char>);

/// The links of a node, in order, each with its folder path: a link with a
/// url and a date is kept under `path`; a folder passes `path/name` on to its
/// children; anything else is skipped.
pub open spec fn links_of(node: BookmarkNode, path: Seq<char>) -> Seq<Found>
    decreases node, 1int,
{
    if node.node_type@ == seq!['u', 'r', 'l'] {
        if node.url is Some && node.date_added is Some {
            seq![(node, path)]
        } else {
            Seq::empty()
        }
    } else if node.node_type@ == seq!['f', 'o', 'l', 'd', 'e', 'r'] {
        links_of_all(node, node.children@, path + seq!['/'] + node.name@)
    } else {
        Seq::empty()
    }
}

/// The links of the nodes `cs`, in order; `cs` are children of `parent`
/// (a node that is not contributes nothing).
pub open spec fn links_of_all(parent: BookmarkNode, cs: Seq<BookmarkNode>, path: Seq<char>) -> Seq<Found>
    decreases parent, 0int, cs.len(),
{
    if cs.len() == 0 {
        Seq::empty()
    } else {
        let last = cs.last();
        links_of_all(parent, cs.drop_last(), path) + (if parent.children@.contains(last) {
            links_of(last, path)
        } else {
            Seq::empty()
        })
    }
}

/// `b` is the record made from link `f`.
pub open spec fn record_of(b: ChromeBookmark, f: Found) -> bool {
    &&& b.id == f.0.id
    &&& b.name == f.0.name
    &&& Some(b.url) == f.0.url
    &&& Some(b.date_added) == f.0.date_added
    &&& b.folder_path matches Some(p) && p@ == f.1
    &&& b.lowered()
}

/// `bs` are the records made from the links `fs`, one for one.
pub open spec fn records_of(bs: Seq<ChromeBookmark>, fs: Seq<Found>) -> bool {
    bs.len() == fs.len() && forall|i: int| 0 <= i < bs.len() ==> record_of(#[trigger] bs[i], fs[i])
}

/// The label of the bookmark bar's root.
pub open spec fn bar_label() -> Seq<char> {
    seq!['书', '签', '栏']
}

/// The label of the other bookmarks' root.
pub open spec fn other_label() -> Seq<char> {
    seq!['其', '他', '书', '签']
}

/// The label of the synced bookmarks' root.
pub open spec fn synced_label() -> Seq<char> {
    seq!['同', '步', '书', '签']
}

/// Appends the records of `node`'s links under `path` to `out`.
fn extract_from_node(node: &BookmarkNode, path: &Vec<char>, out: &mut Vec<ChromeBookmark>)
    ensures
        final(out)@.len() >= old(out)@.len(),
        final(out)@.subrange(0, old(out)@.len() as int) == old(out)@,
        records_of(final(out)@.subrange(old(out)@.len() as int, final(out)@.len() as int), links_of(*node, path@)),
    decreases *node, 1int,
{
    let ghost start = out@;
    let url_kind = vec!['u', 'r', 'l'];
    let folder_kind = vec!['f', 'o', 'l', 'd', 'e', 'r'];
    assert(url_kind@ =~= seq!['u', 'r', 'l']);
    assert(folder_kind@ =~= seq!['f', 'o', 'l', 'd', 'e', 'r']);
    let kind = chars_of(node.node_type.as_str());
    if crate::text::same_chars(kind.as_slice(), url_kind.as_slice()) {
        match (&node.url, &node.date_added) {
            (Some(url), Some(date_added)) => {
                let rec = ChromeBookmark::new(node.id.clone(), node.name.clone(), url.clone(), date_added.clone(),
                    Some(string_of(path.as_slice())));
                out.push(rec);
                assert(out@.subrange(0, start.len() as int) =~= start);
                assert(out@.subrange(start.len() as int, out@.len() as int) =~= seq![rec]);
            }
            _ => {
                assert(out@.subrange(0, start.len() as int) =~= start);
            }
        }
    } else if crate::text::same_chars(kind.as_slice(), folder_kind.as_slice()) {
        let mut next = path.clone();
        let ghost p0 = path@;
        next.push('/');
        let name = chars_of(node.name.as_str());
        let mut k: usize = 0;
        while k < name.len()
            invariant
                k <= name@.len(),
                next@ == p0 + seq!['/'] + name@.subrange(0, k as int),
            decreases name@.len() - k,
        {
            next.push(name[k]);
            k = k + 1;
            assert(next@ =~= p0 + seq!['/'] + name@.subrange(0, k as int));
        }
        assert(name@.subrange(0, name@.len() as int) =~= name@);
        let mut i: usize = 0;
        assert(out@.subrange(0, start.len() as int) =~= start);
        assert(node.children@.take(0) =~= Seq::<BookmarkNode>::empty());
        while i < node.children.len()
            invariant
                i <= node.children@.len(),
                out@.len() >= start.len(),
                out@.subrange(0, start.len() as int) == start,
                records_of(out@.subrange(start.len() as int, out@.len() as int),
                    links_of_all(*node, node.children@.take(i as int), next@)),
            decreases node.children@.len() - i,
        {
            let ghost before = out@;
            let child = &node.children[i];
            assert(decreases_to!(*node => node.children@[i as int]));
            extract_from_node(child, &next, out);
            let ghost cs = node.children@.take(i + 1);
            assert(cs.drop_last() =~= node.children@.take(i as int));
            assert(cs.last() == *child);
            assert(node.children@.contains(*child));
            assert(out@.subrange(0, start.len() as int) =~= start) by {
                assert(out@.subrange(0, before.len() as int) == before);
            }
            let ghost prev_part = before.subrange(start.len() as int, before.len() as int);
            let ghost new_part = out@.subrange(before.len() as int, out@.len() as int);
            assert(out@.subrange(start.len() as int, out@.len() as int) =~= prev_part + new_part) by {
                assert(out@.subrange(0, before.len() as int) == before);
            }
            i = i + 1;
        }
        assert(node.children@.take(node.children@.len() as int) =~= node.children@);
    } else {
        assert(out@.subrange(0, start.len() as int) =~= start);
    }
}

impl ChromeBookmarks {
    /// Every link of the tree as a record, in tree order: the bookmark bar,
    /// then the other bookmarks, then the synced ones. A record's folder path
    /// is its root's label followed by the names of the folders above it,
    /// separated by `/`.
    pub fn extract_all_bookmarks(&self) -> (r: Vec<ChromeBookmark>)
        ensures
            records_of(r@, links_of(self.roots.bookmark_bar, bar_label()) + links_of(self.roots.other, other_label())
                + match self.roots.synced {
                    Some(s) => links_of(s, synced_label()),
                    None => Seq::empty(),
                }),
    {
        let mut out: Vec<ChromeBookmark> = Vec::new();
        let bar = vec!['书', '签', '栏'];
        let other = vec!['其', '他', '书', '签'];
        let synced = vec!['同', '步', '书', '签'];
        assert(bar@ =~= bar_label());
        assert(other@ =~= other_label());
        assert(synced@ =~= synced_label());
        extract_from_node(&self.roots.bookmark_bar, &bar, &mut out);
        let ghost a = out@;
        extract_from_node(&self.roots.other, &other, &mut out);
        let ghost b = out@;
        match &self.roots.synced {
            Some(s) => {
                extract_from_node(s, &synced, &mut out);
            }
            None => {}
        }
        assert(a.subrange(0, 0) =~= Seq::<ChromeBookmark>::empty());
        assert(out@ =~= a + b.subrange(a.len() as int, b.len() as int) + out@.subrange(b.len() as int, out@.len() as int)) by {
            assert(out@.subrange(0, b.len() as int) == b);
            assert(b.subrange(0, a.len() as int) == a);
        }
        assert(a =~= a.subrange(0, a.len() as int));
        out
    }
}

/// The path of file `name` in directory `dir`, as `Path::join` forms it.
pub uninterp spec fn joined_path(dir: Seq<char>, name: Seq<char>) -> Seq<char>;

/// Relies on `Path::join`: the result depends on the two strings alone.
#[verifier::external_body]
fn join_path(dir: &str, name: &str) -> (r: String)
    ensures
        r@ == joined_path(dir@, name@),
{
    std::path::Path::new(dir).join(name).to_string_lossy().into_owned()
}

/// Where the parsed record list and the fingerprint it was parsed from are
/// cached, inside a data directory.
pub struct BookmarkCache {
    pub cache_path: String,
    pub mtime_path: String,
}

/// Whether the cached record list may be used: the fingerprint stored with
/// it, trimmed, is the bookmark file's current fingerprint.
pub fn cache_is_current(stored: Option<&str>, source: &str) -> (r: bool)
    ensures
        r == (stored matches Some(s) && trimmed(s@) == source@),
{
    match stored {
        None => false,
        Some(s) => same_chars(trim_chars(chars_of(s).as_slice()).as_slice(), chars_of(source).as_slice()),
    }
}

impl BookmarkCache {
    /// The cache files inside `data_dir`.
    pub fn new(data_dir: &str) -> (r: Self)
        ensures
            r.cache_path@ == joined_path(data_dir@, "bookmarks_cache.json"@),
            r.mtime_path@ == joined_path(data_dir@, "bookmarks_mtime"@),
    {
        BookmarkCache {
            cache_path: join_path(data_dir, "bookmarks_cache.json"),
            mtime_path: join_path(data_dir, "bookmarks_mtime"),
        }
    }
}

} // verus!
