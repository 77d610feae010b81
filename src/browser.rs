//! Browser sources: naming a browser, recognising profile directories, and
//! choosing among candidate bookmark files.

use vstd::prelude::*;
use crate::query::ascii_fold;
use crate::text::{chars_of, same_chars, starts_with, starts_with_chars, string_of, trim_chars, trimmed};

verus! {

/// Relies on `char::to_ascii_lowercase`: ASCII capitals become lower case,
/// every other character stays.
#[verifier::external_body]
fn ascii_lower(c: char) -> (r: char)
    ensures
        r as int == ascii_fold(c),
{
    c.to_ascii_lowercase()
}

/// A supported browser: its key, other names for it, and the directories
/// (under the application-support directory) where it keeps profiles.
#[derive(Clone, Debug)]
pub struct BrowserSource {
    pub key: &'static str,
    pub aliases: Vec<&'static str>,
    pub roots: Vec<&'static str>,
}

/// The supported browsers.
pub fn browser_sources() -> (r: Vec<BrowserSource>)
    ensures
        r@.len() == 12,
{
    vec![
        BrowserSource {
            key: "chrome",
            aliases: vec!["google-chrome", "google"],
            roots: vec!["Google/Chrome", "Google/Chrome Beta", "Google/Chrome Dev", "Google/Chrome Canary"],
        },
        BrowserSource {
            key: "brave",
            aliases: vec!["brave-browser"],
            roots: vec!["BraveSoftware/Brave-Browser", "BraveSoftware/Brave-Browser-Beta", "BraveSoftware/Brave-Browser-Nightly"],
        },
        BrowserSource {
            key: "edge",
            aliases: vec!["microsoft-edge", "msedge"],
            roots: vec!["Microsoft Edge", "Microsoft Edge Beta", "Microsoft Edge Dev", "Microsoft Edge Canary"],
        },
        BrowserSource { key: "chromium", aliases: vec![], roots: vec!["Chromium"] },
        BrowserSource { key: "vivaldi", aliases: vec![], roots: vec!["Vivaldi"] },
        BrowserSource { key: "arc", aliases: vec![], roots: vec!["Arc", "The Browser Company/Arc"] },
        BrowserSource { key: "dia", aliases: vec![], roots: vec!["Dia", "The Browser Company/Dia"] },
        BrowserSource { key: "opera", aliases: vec!["opera-stable"], roots: vec!["Opera", "com.operasoftware.Opera"] },
        BrowserSource {
            key: "opera-developer",
            aliases: vec!["opera-dev"],
            roots: vec!["com.operasoftware.OperaDeveloper"],
        },
        BrowserSource { key: "opera-next", aliases: vec!["opera-beta"], roots: vec!["com.operasoftware.OperaNext"] },
        BrowserSource { key: "opera-gx", aliases: vec!["operagx"], roots: vec!["com.operasoftware.OperaGX"] },
        BrowserSource { key: "sidekick", aliases: vec![], roots: vec!["Sidekick"] },
    ]
}

/// The code of a character of a normalised browser name: `_` and space
/// become `-`, ASCII capitals become lower case.
pub open spec fn browser_code(c: char) -> int {
    if c == '_' || c == ' ' { '-' as int } else { ascii_fold(c) }
}

/// `r` is the normalised form of browser name `raw`: trimmed, then each
/// character mapped by `browser_code`.
pub open spec fn normalized_browser(raw: Seq<char>, r: Seq<char>) -> bool {
    &&& r.len() == trimmed(raw).len()
    &&& forall|i: int| 0 <= i < r.len() ==> #[trigger] r[i] as int == browser_code(trimmed(raw)[i])
}

/// The normalised form of a browser name.
pub fn normalize_browser_identifier(raw: &str) -> (r: String)
    ensures
        normalized_browser(raw@, r@),
{
    let t = trim_chars(chars_of(raw).as_slice());
    let mut out: Vec<char> = Vec::new();
    let mut i: usize = 0;
    while i < t.len()
        invariant
            i <= t@.len(),
            t@ == trimmed(raw@),
            out@.len() == i,
            forall|k: int| 0 <= k < i ==> #[trigger] out@[k] as int == browser_code(t@[k]),
        decreases t@.len() - i,
    {
        let c = t[i];
        let m = if c == '_' || c == ' ' { '-' } else { ascii_lower(c) };
        out.push(m);
        i = i + 1;
    }
    string_of(out.as_slice())
}

/// Source `s` answers to the name `id`: its key or one of its aliases.
pub open spec fn names(s: BrowserSource, id: Seq<char>) -> bool {
    s.key@ == id || exists|k: int| 0 <= k < s.aliases@.len() && (#[trigger] s.aliases@[k])@ == id
}

/// Whether source `s` answers to the name `id`.
fn answers_to(s: &BrowserSource, id: &Vec<char>) -> (r: bool)
    ensures
        r == names(*s, id@),
{
    if same_chars(chars_of(s.key).as_slice(), id.as_slice()) {
        return true;
    }
    let mut k: usize = 0;
    while k < s.aliases.len()
        invariant
            k <= s.aliases@.len(),
            forall|j: int| 0 <= j < k ==> (#[trigger] s.aliases@[j])@ != id@,
        decreases s.aliases@.len() - k,
    {
        if same_chars(chars_of(s.aliases[k]).as_slice(), id.as_slice()) {
            return true;
        }
        k = k + 1;
    }
    false
}

/// The position of the first source that answers to `identifier`.
pub fn find_browser_source(sources: &Vec<BrowserSource>, identifier: &str) -> (r: Option<usize>)
    ensures
        r is None ==> forall|i: int| 0 <= i < sources@.len() ==> !names(#[trigger] sources@[i], identifier@),
        r matches Some(i) ==> i < sources@.len() && names(sources@[i as int], identifier@)
            && forall|j: int| 0 <= j < i ==> !names(#[trigger] sources@[j], identifier@),
{
    let id = chars_of(identifier);
    let mut i: usize = 0;
    while i < sources.len()
        invariant
            i <= sources@.len(),
            id@ == identifier@,
            forall|j: int| 0 <= j < i ==> !names(#[trigger] sources@[j], identifier@),
        decreases sources@.len() - i,
    {
        if answers_to(&sources[i], &id) {
            return Some(i);
        }
        i = i + 1;
    }
    None
}

/// The browser that a configured name selects: none for a blank name or
/// `all`; the key of the source that answers to the normalised name; else
/// the normalised name itself.
pub fn browser_key_of(sources: &Vec<BrowserSource>, raw: &str) -> (r: Option<String>)
    ensures
        r is None <==> exists|n: Seq<char>| normalized_browser(raw@, n) && (n.len() == 0 || n == "all"@),
        r matches Some(k) ==> exists|n: Seq<char>| normalized_browser(raw@, n) && ({
            ||| exists|i: int| 0 <= i < sources@.len() && names(#[trigger] sources@[i], n) && k@ == sources@[i].key@
                && forall|j: int| 0 <= j < i ==> !names(#[trigger] sources@[j], n)
            ||| (forall|i: int| 0 <= i < sources@.len() ==> !names(#[trigger] sources@[i], n)) && k@ == n
        }),
{
    let n = normalize_browser_identifier(raw);
    proof { lemma_normalized_unique(raw@, n@); }
    let all = "all".to_owned();
    if n.as_str().is_empty() || n == all {
        return None;
    }
    match find_browser_source(sources, n.as_str()) {
        Some(i) => Some(sources[i].key.to_owned()),
        None => Some(n),
    }
}

proof fn lemma_normalized_unique(raw: Seq<char>, n: Seq<char>)
    requires
        normalized_browser(raw, n),
    ensures
        forall|m: Seq<char>| normalized_browser(raw, m) ==> m == n,
{
    assert forall|m: Seq<char>| normalized_browser(raw, m) implies m == n by {
        assert forall|i: int| 0 <= i < m.len() implies m[i] == n[i] by {
            assert(m[i] as int == n[i] as int);
        }
        assert(m =~= n);
    }
}

/// A directory name that a Chromium-based browser uses for a profile.
pub open spec fn profile_dir(name: Seq<char>) -> bool {
    name == "Default"@ || name == "Guest Profile"@ || name == "System Profile"@
        || starts_with(name, "Profile "@) || starts_with(name, "Person "@)
}

/// Whether `name` is a profile directory name.
pub fn is_chromium_profile_dir(name: &str) -> (r: bool)
    ensures
        r == profile_dir(name@),
{
    let n = chars_of(name);
    same_chars(n.as_slice(), chars_of("Default").as_slice())
        || same_chars(n.as_slice(), chars_of("Guest Profile").as_slice())
        || same_chars(n.as_slice(), chars_of("System Profile").as_slice())
        || starts_with_chars(n.as_slice(), chars_of("Profile ").as_slice())
        || starts_with_chars(n.as_slice(), chars_of("Person ").as_slice())
}

/// A character that may stand in a cache file name as it is.
pub open spec fn file_safe(c: char) -> bool {
    ('0' <= c && c <= '9') || ('a' <= c && c <= 'z') || ('A' <= c && c <= 'Z') || c == '-'
}

/// The name of the file that caches the bookmark file's location: one per
/// browser key, with every character of the key other than ASCII letters,
/// digits and `-` replaced by `_`.
pub fn source_cache_file_name(browser_key: Option<&str>) -> (r: String)
    ensures
        browser_key is None ==> r@ == "bookmarks_source_path.json"@,
        browser_key matches Some(k) ==> {
            let head = "bookmarks_source_path."@;
            let tail = ".json"@;
            &&& r@.len() == head.len() + k@.len() + tail.len()
            &&& r@.subrange(0, head.len() as int) == head
            &&& r@.subrange((head.len() + k@.len()) as int, r@.len() as int) == tail
            &&& forall|i: int| 0 <= i < k@.len() ==> #[trigger] r@[head.len() + i] == if file_safe(k@[i]) { k@[i] } else { '_' }
        },
{
    match browser_key {
        None => "bookmarks_source_path.json".to_owned(),
        Some(k) => {
            let mut out = chars_of("bookmarks_source_path.");
            let ghost head = out@;
            let kc = chars_of(k);
            let mut i: usize = 0;
            while i < kc.len()
                invariant
                    i <= kc@.len(),
                    kc@ == k@,
                    out@.len() == head.len() + i,
                    out@.subrange(0, head.len() as int) == head,
                    forall|j: int| 0 <= j < i ==> #[trigger] out@[head.len() + j] == if file_safe(kc@[j]) { kc@[j] } else { '_' },
                decreases kc@.len() - i,
            {
                let c = kc[i];
                let safe = ('0' <= c && c <= '9') || ('a' <= c && c <= 'z') || ('A' <= c && c <= 'Z') || c == '-';
                let ghost before = out@;
                out.push(if safe { c } else { '_' });
                assert(out@.subrange(0, head.len() as int) =~= before.subrange(0, head.len() as int));
                i = i + 1;
            }
            let tail = chars_of(".json");
            let ghost mid = out@;
            let mut j: usize = 0;
            while j < tail.len()
                invariant
                    j <= tail@.len(),
                    out@ == mid + tail@.subrange(0, j as int),
                decreases tail@.len() - j,
            {
                out.push(tail[j]);
                j = j + 1;
                assert(out@ =~= mid + tail@.subrange(0, j as int));
            }
            assert(tail@.subrange(0, tail@.len() as int) =~= tail@);
            assert(out@.subrange(0, head.len() as int) =~= mid.subrange(0, head.len() as int));
            assert(out@.subrange((head.len() + k@.len()) as int, out@.len() as int) =~= tail@);
            string_of(out.as_slice())
        }
    }
}

/// Candidate `a` (modification time, size) is newer than `b`: a later
/// modification time, or the same one and a larger size.
pub open spec fn newer(a: (u128, u64), b: (u128, u64)) -> bool {
    a.0 > b.0 || (a.0 == b.0 && a.1 > b.1)
}

/// The position of the newest candidate, the earliest among equals; `None`
/// where there is none.
pub fn select_latest_bookmarks(candidates: &Vec<(u128, u64)>) -> (r: Option<usize>)
    ensures
        r is None <==> candidates@.len() == 0,
        r matches Some(i) ==> i < candidates@.len()
            && (forall|j: int| 0 <= j < candidates@.len() ==> !newer(#[trigger] candidates@[j], candidates@[i as int]))
            && (forall|j: int| 0 <= j < i ==> newer(candidates@[i as int], #[trigger] candidates@[j])),
{
    if candidates.len() == 0 {
        return None;
    }
    let mut best: usize = 0;
    let mut i: usize = 1;
    while i < candidates.len()
        invariant
            1 <= i <= candidates@.len(),
            best < i,
            forall|j: int| 0 <= j < i ==> !newer(#[trigger] candidates@[j], candidates@[best as int]),
            forall|j: int| 0 <= j < best ==> newer(candidates@[best as int], #[trigger] candidates@[j]),
        decreases candidates@.len() - i,
    {
        let (t, s) = candidates[i];
        let (bt, bs) = candidates[best];
        if t > bt || (t == bt && s > bs) {
            best = i;
        }
        i = i + 1;
    }
    Some(best)
}

} // verus!
