//! Properties that relate several operations of the index.

use vstd::prelude::*;
use crate::record::ChromeBookmark;
use crate::store::{add_all, carries_all, has_id, ids_with_all, live_tags, tags_of, IndexState, TagPair};
use crate::text::{distinct_trimmed, trimmed};

verus! {

proof fn lemma_live_tags_ids(tags: Seq<TagPair>, rs: Seq<ChromeBookmark>)
    ensures
        forall|k: int| 0 <= k < live_tags(tags, rs).len() ==> has_id(rs, (#[trigger] live_tags(tags, rs)[k]).0),
    decreases tags.len(),
{
    if tags.len() > 0 {
        lemma_live_tags_ids(tags.drop_last(), rs);
        let r = live_tags(tags.drop_last(), rs);
        if has_id(rs, tags.last().0) {
            assert forall|k: int| 0 <= k < r.push(tags.last()).len() implies has_id(rs, (#[trigger] r.push(tags.last())[k]).0) by {
                if k < r.len() {
                    assert(r.push(tags.last())[k] == r[k]);
                }
            }
        }
    }
}

/// After a successful replacement, no tag association refers to a bookmark
/// id outside the new record set: such an id carries no tag at all.
pub proof fn lemma_replace_leaves_no_orphans(s: IndexState, next: IndexState, rs: Seq<ChromeBookmark>, fp: Seq<char>,
    id: Seq<char>)
    requires
        s.replaced(next, rs, fp),
        !has_id(rs, id),
    ensures
        tags_of(next.tags, id) == Set::<Seq<char>>::empty(),
        forall|k: int| 0 <= k < next.tags.len() ==> (#[trigger] next.tags[k]).0 != id,
{
    lemma_live_tags_ids(s.tags, rs);
    assert forall|t: Seq<char>| !tags_of(next.tags, id).contains(t) by {
        if next.tags.contains((id, t)) {
            let k = choose|k: int| 0 <= k < next.tags.len() && next.tags[k] == (id, t);
            assert(has_id(rs, next.tags[k].0));
        }
    }
    assert(tags_of(next.tags, id) =~= Set::<Seq<char>>::empty());
    assert forall|k: int| 0 <= k < next.tags.len() implies (#[trigger] next.tags[k]).0 != id by {
        assert(has_id(rs, next.tags[k].0));
    }
}

/// A piece is kept by `distinct_trimmed` exactly when it is the trimmed,
/// non-blank form of some requested piece.
pub proof fn lemma_distinct_trimmed_members(ps: Seq<Seq<char>>, t: Seq<char>)
    ensures
        distinct_trimmed(ps).contains(t) <==> (t.len() > 0 && exists|k: int| 0 <= k < ps.len() && trimmed(#[trigger] ps[k]) == t),
    decreases ps.len(),
{
    if ps.len() > 0 {
        let d = ps.drop_last();
        lemma_distinct_trimmed_members(d, t);
        let r = distinct_trimmed(d);
        let last = trimmed(ps.last());
        if distinct_trimmed(ps).contains(t) {
            if r.contains(t) {
                let k = choose|k: int| 0 <= k < d.len() && trimmed(#[trigger] d[k]) == t;
                assert(ps[k] == d[k]);
            } else {
                assert(trimmed(ps[ps.len() - 1]) == t);
                let s2 = r.push(last);
                let j = choose|j: int| 0 <= j < s2.len() && s2[j] == t;
            }
        }
        if t.len() > 0 && exists|k: int| 0 <= k < ps.len() && trimmed(#[trigger] ps[k]) == t {
            let k = choose|k: int| 0 <= k < ps.len() && trimmed(#[trigger] ps[k]) == t;
            if k < d.len() {
                assert(d[k] == ps[k]);
                assert(r.contains(t));
                if !(last.len() > 0 && !r.contains(last)) {
                } else {
                    let j = choose|j: int| 0 <= j < r.len() && r[j] == t;
                    assert(r.push(last)[j] == t);
                }
            } else if !r.contains(t) {
                assert(r.push(last)[r.len() as int] == t);
            }
        }
    }
}

/// Tag queries have set semantics: a bookmark qualifies exactly when it
/// carries every requested tag (trimmed, blank ones ignored) and at least
/// one non-blank tag was requested. Repeating a tag in the request, or
/// listing the tags in another order, changes nothing.
pub proof fn lemma_tag_query_is_intersection(tags: Seq<TagPair>, request: Seq<Seq<char>>, id: Seq<char>)
    ensures
        ids_with_all(tags, distinct_trimmed(request)).contains(id) <==> (
            (exists|k: int| 0 <= k < request.len() && trimmed(#[trigger] request[k]).len() > 0)
            && forall|k: int| 0 <= k < request.len() && trimmed(#[trigger] request[k]).len() > 0
                ==> tags.contains((id, trimmed(request[k])))),
{
    let want = distinct_trimmed(request);
    if ids_with_all(tags, want).contains(id) {
        assert(want.len() > 0);
        lemma_distinct_trimmed_members(request, want[0]);
        assert(want.contains(want[0]));
        assert forall|k: int| 0 <= k < request.len() && trimmed(#[trigger] request[k]).len() > 0
            implies tags.contains((id, trimmed(request[k]))) by {
            lemma_distinct_trimmed_members(request, trimmed(request[k]));
            let j = choose|j: int| 0 <= j < want.len() && want[j] == trimmed(request[k]);
        }
    }
    if (exists|k: int| 0 <= k < request.len() && trimmed(#[trigger] request[k]).len() > 0)
        && forall|k: int| 0 <= k < request.len() && trimmed(#[trigger] request[k]).len() > 0
            ==> tags.contains((id, trimmed(request[k]))) {
        let k0 = choose|k: int| 0 <= k < request.len() && trimmed(#[trigger] request[k]).len() > 0;
        lemma_distinct_trimmed_members(request, trimmed(request[k0]));
        assert(want.contains(trimmed(request[k0])));
        assert forall|j: int| 0 <= j < want.len() implies tags.contains((id, #[trigger] want[j])) by {
            lemma_distinct_trimmed_members(request, want[j]);
            assert(want.contains(want[j]));
            let k = choose|k: int| 0 <= k < request.len() && trimmed(#[trigger] request[k]) == want[j];
        }
        assert(carries_all(tags, id, want));
    }
}

proof fn lemma_add_all_contains(tags: Seq<TagPair>, id: Seq<char>, ts: Seq<Seq<char>>)
    ensures
        forall|k: int| 0 <= k < ts.len() ==> add_all(tags, id, ts).contains((id, #[trigger] ts[k])),
        forall|x: TagPair| tags.contains(x) ==> add_all(tags, id, ts).contains(x),
    decreases ts.len(),
{
    if ts.len() > 0 {
        let d = ts.drop_last();
        lemma_add_all_contains(tags, id, d);
        let r = add_all(tags, id, d);
        assert forall|x: TagPair| r.contains(x) implies add_all(tags, id, ts).contains(x) by {
            if !r.contains((id, ts.last())) {
                let j = choose|j: int| 0 <= j < r.len() && r[j] == x;
                assert(r.push((id, ts.last()))[j] == x);
            }
        }
        assert forall|k: int| 0 <= k < ts.len() implies add_all(tags, id, ts).contains((id, #[trigger] ts[k])) by {
            if k < d.len() {
                assert(d[k] == ts[k]);
                assert(r.contains((id, d[k])));
            } else if !r.contains((id, ts.last())) {
                assert(r.push((id, ts.last()))[r.len() as int] == (id, ts.last()));
            }
        }
    }
}

proof fn lemma_add_all_present(tags: Seq<TagPair>, id: Seq<char>, ts: Seq<Seq<char>>)
    requires
        forall|k: int| 0 <= k < ts.len() ==> tags.contains((id, #[trigger] ts[k])),
    ensures
        add_all(tags, id, ts) == tags,
    decreases ts.len(),
{
    if ts.len() > 0 {
        let d = ts.drop_last();
        assert forall|k: int| 0 <= k < d.len() implies tags.contains((id, #[trigger] d[k])) by {
            assert(d[k] == ts[k]);
        }
        lemma_add_all_present(tags, id, d);
        assert(tags.contains((id, ts[ts.len() - 1])));
    }
}

/// Tagging is idempotent: adding the same tags to the same bookmark a second
/// time adds nothing.
pub proof fn lemma_add_tags_idempotent(tags: Seq<TagPair>, id: Seq<char>, request: Seq<Seq<char>>)
    ensures
        add_all(add_all(tags, id, distinct_trimmed(request)), id, distinct_trimmed(request))
            == add_all(tags, id, distinct_trimmed(request)),
{
    let ts = distinct_trimmed(request);
    lemma_add_all_contains(tags, id, ts);
    lemma_add_all_present(add_all(tags, id, ts), id, ts);
}

} // verus!
