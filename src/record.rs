//! The bookmark record that the index stores, searches and hands out.

use vstd::prelude::*;
use crate::text::{lower_of, lowercase};

verus! {

/// One bookmark. `id` is the key given by the source; `date_added` is kept
/// as the source wrote it. The three `*_lower` fields are lower-cased copies
/// of `name`, `url` and `folder_path`, computed whenever a record is built.
#[derive(Debug, Clone)]
pub struct ChromeBookmark {
    pub id: String,
    pub name: String,
    pub url: String,
    pub date_added: String,
    pub folder_path: Option<String>,
    pub name_lower: String,
    pub url_lower: String,
    pub folder_path_lower: Option<String>,
}

/// The lower-cased copy of an optional string.
pub open spec fn lower_opt(s: Option<String>) -> Option<Seq<char>> {
    match s {
        Some(v) => Some(lower_of(v@)),
        None => None,
    }
}

/// The view of an optional string.
pub open spec fn opt_view(s: Option<String>) -> Option<Seq<char>> {
    match s {
        Some(v) => Some(v@),
        None => None,
    }
}

impl ChromeBookmark {
    /// The lower-cased fields are those of the other fields.
    pub open spec fn lowered(&self) -> bool {
        &&& self.name_lower@ == lower_of(self.name@)
        &&& self.url_lower@ == lower_of(self.url@)
        &&& opt_view(self.folder_path_lower) == lower_opt(self.folder_path)
    }

    /// A record built from its source fields, with the lower-cased copies filled in.
    pub fn new(id: String, name: String, url: String, date_added: String, folder_path: Option<String>) -> (r: Self)
        ensures
            r.id == id,
            r.name == name,
            r.url == url,
            r.date_added == date_added,
            r.folder_path == folder_path,
            r.lowered(),
    {
        let name_lower = lowercase(name.as_str());
        let url_lower = lowercase(url.as_str());
        let folder_path_lower = match &folder_path {
            Some(p) => Some(lowercase(p.as_str())),
            None => None,
        };
        ChromeBookmark { id, name, url, date_added, folder_path, name_lower, url_lower, folder_path_lower }
    }

    /// A field-for-field copy of this record.
    pub fn duplicate(&self) -> (r: Self)
        ensures
            r == *self,
    {
        let folder_path = match &self.folder_path {
            Some(p) => Some(p.clone()),
            None => None,
        };
        let folder_path_lower = match &self.folder_path_lower {
            Some(p) => Some(p.clone()),
            None => None,
        };
        ChromeBookmark {
            id: self.id.clone(),
            name: self.name.clone(),
            url: self.url.clone(),
            date_added: self.date_added.clone(),
            folder_path,
            name_lower: self.name_lower.clone(),
            url_lower: self.url_lower.clone(),
            folder_path_lower,
        }
    }
}

} // verus!
