//! The post collection: an always-sorted (newest first), deduplicated,
//! unread-tracking container of the posts of one feed.

use vstd::prelude::*;

verus! {

use crate::post::{Post, PostId, PostView};

/// Newest first: publication times never increase along the sequence.
pub open spec fn sorted_desc(s: Seq<PostView>) -> bool {
    forall|i: int, j: int| 0 <= i <= j < s.len() ==> s[i].published >= s[j].published
}

/// No two posts share an identifier.
pub open spec fn distinct_ids(s: Seq<PostView>) -> bool {
    forall|i: int, j: int| 0 <= i < j < s.len() ==> s[i].id != s[j].id
}

/// The number of posts in `s` with `read == false`.
pub open spec fn unread_count(s: Seq<PostView>) -> nat
    decreases s.len(),
{
    if s.len() == 0 {
        0
    } else {
        (if s[0].read {
            0nat
        } else {
            1nat
        }) + unread_count(s.drop_first())
    }
}

/// Whether some post in `s` has the identifier `id`.
pub open spec fn has_id(s: Seq<PostView>, id: Seq<char>) -> bool {
    exists|i: int| 0 <= i < s.len() && s[i].id == id
}

/// Index of the first post in `s` with identifier `id`.
pub open spec fn id_index(s: Seq<PostView>, id: Seq<char>) -> int
    decreases s.len(),
{
    if s.len() == 0 {
        0
    } else if s[0].id == id {
        0
    } else {
        1 + id_index(s.drop_first(), id)
    }
}

/// The number of posts in `s` with identifier `id`.
pub open spec fn count_id(s: Seq<PostView>, id: Seq<char>) -> nat
    decreases s.len(),
{
    if s.len() == 0 {
        0
    } else {
        (if s[0].id == id {
            1nat
        } else {
            0nat
        }) + count_id(s.drop_first(), id)
    }
}

/// Where a post published at `published` enters a sorted sequence: after
/// every post published no earlier than it.
pub open spec fn insert_index(s: Seq<PostView>, published: i64) -> int
    decreases s.len(),
{
    if s.len() == 0 {
        0
    } else if s[0].published >= published {
        1 + insert_index(s.drop_first(), published)
    } else {
        0
    }
}

/// `p` with its read flag set to `read` and everything else unchanged.
pub open spec fn with_read(p: PostView, read: bool) -> PostView {
    PostView { id: p.id, title: p.title, urls: p.urls, published: p.published, read: read }
}

/// The collection after an insert: unchanged when a post with the same
/// identifier is already present (the first write wins), otherwise the post
/// enters at its sort position.
pub open spec fn spec_insert(s: Seq<PostView>, p: PostView) -> Seq<PostView> {
    if has_id(s, p.id) {
        s
    } else {
        s.insert(insert_index(s, p.published), p)
    }
}

/// The collection after marking the post `id` (when present) with `read`.
pub open spec fn spec_mark_read(s: Seq<PostView>, id: Seq<char>, read: bool) -> Seq<PostView> {
    if has_id(s, id) {
        s.update(id_index(s, id), with_read(s[id_index(s, id)], read))
    } else {
        s
    }
}

/// The collection after toggling the read flag of the post `id`.
pub open spec fn spec_toggle_read(s: Seq<PostView>, id: Seq<char>) -> Seq<PostView> {
    if has_id(s, id) {
        s.update(id_index(s, id), with_read(s[id_index(s, id)], !s[id_index(s, id)].read))
    } else {
        s
    }
}

/// The collection after inserting every post of `t`, in order.
pub open spec fn spec_merge(s: Seq<PostView>, t: Seq<PostView>) -> Seq<PostView>
    decreases t.len(),
{
    if t.len() == 0 {
        s
    } else {
        spec_merge(spec_insert(s, t[0]), t.drop_first())
    }
}

/// Keeps `s[i]` exactly when `keep[i]`.
pub open spec fn mask_keep(s: Seq<PostView>, keep: Seq<bool>) -> Seq<PostView>
    decreases s.len(),
{
    if s.len() == 0 {
        Seq::empty()
    } else {
        let rest = mask_keep(s.drop_first(), keep.drop_first());
        if keep.len() > 0 && keep[0] {
            seq![s[0]] + rest
        } else {
            rest
        }
    }
}

proof fn lemma_uc_le(s: Seq<PostView>)
    ensures
        unread_count(s) <= s.len(),
    decreases s.len(),
{
    if s.len() > 0 {
        lemma_uc_le(s.drop_first());
    }
}

proof fn lemma_uc_insert(s: Seq<PostView>, i: int, p: PostView)
    requires
        0 <= i <= s.len(),
    ensures
        unread_count(s.insert(i, p)) == unread_count(s) + (if p.read {
            0int
        } else {
            1int
        }),
    decreases s.len(),
{
    let t = s.insert(i, p);
    s.insert_ensures(i, p);
    if i == 0 {
        assert(t.drop_first() =~= s);
        assert(t[0] == p);
    } else {
        assert(t[0] == s[0]);
        assert(t.drop_first() =~= s.drop_first().insert(i - 1, p));
        lemma_uc_insert(s.drop_first(), i - 1, p);
    }
}

proof fn lemma_uc_update(s: Seq<PostView>, i: int, p: PostView)
    requires
        0 <= i < s.len(),
    ensures
        unread_count(s.update(i, p)) + (if s[i].read {
            0int
        } else {
            1int
        }) == unread_count(s) + (if p.read {
            0int
        } else {
            1int
        }),
    decreases s.len(),
{
    let t = s.update(i, p);
    if i == 0 {
        assert(t.drop_first() =~= s.drop_first());
        assert(t[0] == p);
    } else {
        assert(t[0] == s[0]);
        assert(t.drop_first() =~= s.drop_first().update(i - 1, p));
        lemma_uc_update(s.drop_first(), i - 1, p);
    }
}

proof fn lemma_id_index_props(s: Seq<PostView>, id: Seq<char>)
    requires
        has_id(s, id),
    ensures
        0 <= id_index(s, id) < s.len(),
        s[id_index(s, id)].id == id,
        forall|j: int| 0 <= j < id_index(s, id) ==> s[j].id != id,
    decreases s.len(),
{
    if s[0].id == id {
    } else {
        let w = choose|i: int| 0 <= i < s.len() && s[i].id == id;
        assert(s.drop_first()[w - 1] == s[w]);
        lemma_id_index_props(s.drop_first(), id);
        assert forall|j: int| 0 <= j < id_index(s, id) implies s[j].id != id by {
            if j > 0 {
                assert(s.drop_first()[j - 1] == s[j]);
            }
        }
    }
}

proof fn lemma_id_index_first(s: Seq<PostView>, id: Seq<char>, i: int)
    requires
        0 <= i < s.len(),
        s[i].id == id,
        forall|j: int| 0 <= j < i ==> s[j].id != id,
    ensures
        has_id(s, id),
        id_index(s, id) == i,
    decreases s.len(),
{
    if i == 0 {
    } else {
        assert forall|j: int| 0 <= j < i - 1 implies s.drop_first()[j].id != id by {
            assert(s.drop_first()[j] == s[j + 1]);
        }
        assert(s.drop_first()[i - 1] == s[i]);
        lemma_id_index_first(s.drop_first(), id, i - 1);
    }
}

proof fn lemma_insert_index_props(s: Seq<PostView>, published: i64)
    requires
        sorted_desc(s),
    ensures
        0 <= insert_index(s, published) <= s.len(),
        forall|j: int| 0 <= j < insert_index(s, published) ==> s[j].published >= published,
        forall|j: int| insert_index(s, published) <= j < s.len() ==> s[j].published < published,
    decreases s.len(),
{
    if s.len() == 0 {
    } else if s[0].published >= published {
        assert forall|a: int, b: int|
            0 <= a <= b < s.drop_first().len() implies s.drop_first()[a].published
            >= s.drop_first()[b].published by {
            assert(s.drop_first()[a] == s[a + 1]);
            assert(s.drop_first()[b] == s[b + 1]);
        }
        lemma_insert_index_props(s.drop_first(), published);
        let ii = insert_index(s, published);
        assert forall|j: int| 0 <= j < ii implies s[j].published >= published by {
            if j > 0 {
                assert(s.drop_first()[j - 1] == s[j]);
            }
        }
        assert forall|j: int| ii <= j < s.len() implies s[j].published < published by {
            assert(s.drop_first()[j - 1] == s[j]);
        }
    } else {
        assert forall|j: int| 0 <= j < s.len() implies s[j].published < published by {
            assert(s[0].published >= s[j].published);
        }
    }
}

/// Law: an insert into a sorted, deduplicated collection keeps it sorted
/// and deduplicated; it grows by one post and by one unread exactly when
/// the inserted identifier was absent (and, for the counter, the post is
/// unread).
pub proof fn lemma_insert_preserves_inv(s: Seq<PostView>, p: PostView)
    requires
        sorted_desc(s),
        distinct_ids(s),
    ensures
        sorted_desc(spec_insert(s, p)),
        distinct_ids(spec_insert(s, p)),
        spec_insert(s, p).len() == s.len() + (if has_id(s, p.id) {
            0int
        } else {
            1int
        }),
        unread_count(spec_insert(s, p)) == unread_count(s) + (if !has_id(s, p.id) && !p.read {
            1int
        } else {
            0int
        }),
        has_id(spec_insert(s, p), p.id),
        forall|x: Seq<char>| #[trigger] has_id(spec_insert(s, p), x) ==> has_id(s, x) || x == p.id,
        forall|x: Seq<char>| #[trigger] has_id(s, x) ==> has_id(spec_insert(s, p), x),
        forall|x: PostView|
            #[trigger] spec_insert(s, p).contains(x) ==> s.contains(x) || (!has_id(s, p.id) && x
                == p),
        forall|x: PostView| #[trigger] s.contains(x) ==> spec_insert(s, p).contains(x),
        !has_id(s, p.id) ==> spec_insert(s, p).contains(p),
{
    if has_id(s, p.id) {
        let w = choose|i: int| 0 <= i < s.len() && s[i].id == p.id;
        assert(spec_insert(s, p) == s);
        assert forall|x: Seq<char>| has_id(spec_insert(s, p), x) implies has_id(s, x) || x
            == p.id by {
        }
    } else {
        lemma_insert_index_props(s, p.published);
        let ii = insert_index(s, p.published);
        let t = s.insert(ii, p);
        s.insert_ensures(ii, p);
        lemma_uc_insert(s, ii, p);
        assert forall|a: int, b: int| 0 <= a <= b < t.len() implies t[a].published
            >= t[b].published by {
            if a < ii && b < ii {
            } else if a < ii && b == ii {
            } else if a < ii && b > ii {
                assert(t[b] == s[b - 1]);
            } else if a == ii && b > ii {
                assert(t[b] == s[b - 1]);
            } else if a > ii && b > ii {
                assert(t[a] == s[a - 1]);
                assert(t[b] == s[b - 1]);
            }
        }
        assert forall|a: int, b: int| 0 <= a < b < t.len() implies t[a].id != t[b].id by {
            if a == ii {
                assert(t[b] == s[b - 1]);
                assert(!(s[b - 1].id == p.id));
            } else if b == ii {
                assert(t[a] == s[a]);
                assert(!(s[a].id == p.id));
            } else {
                let a0: int = if a < ii {
                    a
                } else {
                    a - 1
                };
                let b0: int = if b < ii {
                    b
                } else {
                    b - 1
                };
                assert(t[a] == s[a0]);
                assert(t[b] == s[b0]);
            }
        }
        assert(t[ii] == p);
        assert forall|x: Seq<char>| has_id(s, x) implies has_id(t, x) by {
            let w = choose|i: int| 0 <= i < s.len() && s[i].id == x;
            if w < ii {
                assert(t[w] == s[w]);
            } else {
                assert(t[w + 1] == s[w]);
            }
        }
        assert forall|x: Seq<char>| has_id(t, x) implies has_id(s, x) || x == p.id by {
            let w = choose|i: int| 0 <= i < t.len() && t[i].id == x;
            if w < ii {
                assert(t[w] == s[w]);
            } else if w > ii {
                assert(t[w] == s[w - 1]);
            }
        }
        assert forall|x: PostView| t.contains(x) implies s.contains(x) || x == p by {
            let w = choose|i: int| 0 <= i < t.len() && t[i] == x;
            if w < ii {
                assert(s[w] == x);
            } else if w > ii {
                assert(s[w - 1] == x);
            }
        }
        assert forall|x: PostView| s.contains(x) implies t.contains(x) by {
            let w = choose|i: int| 0 <= i < s.len() && s[i] == x;
            if w < ii {
                assert(t[w] == x);
            } else {
                assert(t[w + 1] == x);
            }
        }
        assert(t.contains(p)) by {
            assert(t[ii] == p);
        }
    }
}

proof fn lemma_count_id_distinct(s: Seq<PostView>, id: Seq<char>)
    requires
        distinct_ids(s),
    ensures
        count_id(s, id) == if has_id(s, id) {
            1nat
        } else {
            0nat
        },
    decreases s.len(),
{
    if s.len() == 0 {
    } else {
        assert forall|a: int, b: int|
            0 <= a < b < s.drop_first().len() implies s.drop_first()[a].id
            != s.drop_first()[b].id by {
            assert(s.drop_first()[a] == s[a + 1]);
            assert(s.drop_first()[b] == s[b + 1]);
        }
        lemma_count_id_distinct(s.drop_first(), id);
        if s[0].id == id {
            assert forall|j: int| 0 <= j < s.drop_first().len() implies s.drop_first()[j].id
                != id by {
                assert(s.drop_first()[j] == s[j + 1]);
            }
            assert(!has_id(s.drop_first(), id));
        } else {
            if has_id(s, id) {
                let w = choose|i: int| 0 <= i < s.len() && s[i].id == id;
                assert(s.drop_first()[w - 1] == s[w]);
                assert(has_id(s.drop_first(), id));
            } else if has_id(s.drop_first(), id) {
                let w = choose|i: int|
                    0 <= i < s.drop_first().len() && s.drop_first()[i].id == id;
                assert(s[w + 1] == s.drop_first()[w]);
            }
        }
    }
}

/// Law: inserting two posts that carry one identifier, whatever their other
/// fields, leaves exactly one post with that identifier in the collection.
pub proof fn lemma_insert_dedup_by_id(s: Seq<PostView>, p1: PostView, p2: PostView)
    requires
        sorted_desc(s),
        distinct_ids(s),
        p1.id == p2.id,
    ensures
        count_id(spec_insert(spec_insert(s, p1), p2), p1.id) == 1,
{
    lemma_insert_preserves_inv(s, p1);
    let t1 = spec_insert(s, p1);
    lemma_insert_preserves_inv(t1, p2);
    assert(has_id(t1, p2.id));
    assert(spec_insert(t1, p2) == t1);
    lemma_count_id_distinct(t1, p1.id);
}

/// Law: every mutation of the collection — an insert, a read-flag change
/// in either direction, a toggle, or keeping a subset — leaves it sorted
/// newest first and free of duplicate identifiers, whatever the inputs.
pub proof fn lemma_mutations_preserve_invariant(
    s: Seq<PostView>,
    p: PostView,
    id: Seq<char>,
    read: bool,
    keep: Seq<bool>,
)
    requires
        sorted_desc(s),
        distinct_ids(s),
        keep.len() == s.len(),
    ensures
        sorted_desc(spec_insert(s, p)) && distinct_ids(spec_insert(s, p)),
        sorted_desc(spec_mark_read(s, id, read)) && distinct_ids(spec_mark_read(s, id, read)),
        sorted_desc(spec_toggle_read(s, id)) && distinct_ids(spec_toggle_read(s, id)),
        sorted_desc(mask_keep(s, keep)) && distinct_ids(mask_keep(s, keep)),
{
    lemma_insert_preserves_inv(s, p);
    lemma_mask_props(s, keep);
    if has_id(s, id) {
        lemma_id_index_props(s, id);
        let i = id_index(s, id);
        let t1 = spec_mark_read(s, id, read);
        let t2 = spec_toggle_read(s, id);
        assert forall|a: int, b: int| 0 <= a <= b < t1.len() implies t1[a].published
            >= t1[b].published by {
            assert(t1[a].published == s[a].published);
            assert(t1[b].published == s[b].published);
        }
        assert forall|a: int, b: int| 0 <= a < b < t1.len() implies t1[a].id != t1[b].id by {
            assert(t1[a].id == s[a].id);
            assert(t1[b].id == s[b].id);
        }
        assert forall|a: int, b: int| 0 <= a <= b < t2.len() implies t2[a].published
            >= t2[b].published by {
            assert(t2[a].published == s[a].published);
            assert(t2[b].published == s[b].published);
        }
        assert forall|a: int, b: int| 0 <= a < b < t2.len() implies t2[a].id != t2[b].id by {
            assert(t2[a].id == s[a].id);
            assert(t2[b].id == s[b].id);
        }
    }
}

/// No two posts in `t` disagree under one identifier; two copies of one
/// post may share it.
pub open spec fn ids_determine_posts(t: Seq<PostView>) -> bool {
    forall|i: int, j: int|
        0 <= i < t.len() && 0 <= j < t.len() && #[trigger] t[i].id == #[trigger] t[j].id ==> t[i]
            == t[j]
}

/// Law: merging a batch leaves the collection sorted and deduplicated,
/// never invents a post, never drops one already present, and picks up
/// every batch post whose identifier is fresh or already bound to an
/// identical post.
pub proof fn lemma_merge_contents(s: Seq<PostView>, t: Seq<PostView>)
    requires
        sorted_desc(s),
        distinct_ids(s),
    ensures
        sorted_desc(spec_merge(s, t)),
        distinct_ids(spec_merge(s, t)),
        forall|x: PostView| #[trigger] spec_merge(s, t).contains(x) ==> s.contains(x)
            || t.contains(x),
        forall|x: PostView| s.contains(x) ==> #[trigger] spec_merge(s, t).contains(x),
        (ids_determine_posts(t) && (forall|i: int|
            0 <= i < t.len() && has_id(s, #[trigger] t[i].id) ==> s.contains(t[i]))) ==> (forall|
            x: PostView,
        |
            t.contains(x) ==> #[trigger] spec_merge(s, t).contains(x)),
    decreases t.len(),
{
    if t.len() == 0 {
    } else {
        let s2 = spec_insert(s, t[0]);
        let t2 = t.drop_first();
        lemma_insert_preserves_inv(s, t[0]);
        lemma_merge_contents(s2, t2);
        assert forall|x: PostView| #[trigger] spec_merge(s, t).contains(x) implies s.contains(x)
            || t.contains(x) by {
            if t2.contains(x) {
                let w = choose|i: int| 0 <= i < t2.len() && t2[i] == x;
                assert(t[w + 1] == t2[w]);
            }
        }
        if ids_determine_posts(t) && (forall|i: int|
            0 <= i < t.len() && has_id(s, #[trigger] t[i].id) ==> s.contains(t[i])) {
            assert(ids_determine_posts(t2)) by {
                assert forall|i: int, j: int|
                    0 <= i < t2.len() && 0 <= j < t2.len() && #[trigger] t2[i].id
                        == #[trigger] t2[j].id implies t2[i] == t2[j] by {
                    assert(t2[i] == t[i + 1]);
                    assert(t2[j] == t[j + 1]);
                }
            }
            assert(s2.contains(t[0])) by {
                if has_id(s, t[0].id) {
                    assert(s.contains(t[0]));
                }
            }
            assert forall|i: int|
                0 <= i < t2.len() && has_id(s2, #[trigger] t2[i].id) implies s2.contains(
                t2[i],
            ) by {
                assert(t2[i] == t[i + 1]);
                if has_id(s, t2[i].id) {
                    assert(s.contains(t[i + 1]));
                } else {
                    assert(t2[i].id == t[0].id);
                    assert(t[i + 1] == t[0]);
                }
            }
            assert forall|x: PostView| t.contains(x) implies #[trigger] spec_merge(
                s,
                t,
            ).contains(x) by {
                let w = choose|i: int| 0 <= i < t.len() && t[i] == x;
                if w == 0 {
                    assert(s2.contains(x));
                } else {
                    assert(t2[w - 1] == x);
                    assert(t2.contains(x));
                }
            }
        }
    }
}

proof fn lemma_mask_push(s: Seq<PostView>, keep: Seq<bool>, p: PostView, k: bool)
    requires
        keep.len() == s.len(),
    ensures
        mask_keep(s.push(p), keep.push(k)) =~= mask_keep(s, keep) + (if k {
            seq![p]
        } else {
            Seq::<PostView>::empty()
        }),
    decreases s.len(),
{
    let tail: Seq<PostView> = if k {
        seq![p]
    } else {
        Seq::<PostView>::empty()
    };
    if s.len() == 0 {
        reveal_with_fuel(mask_keep, 3);
        assert(s.push(p)[0] == p);
        assert(s.push(p).drop_first() =~= Seq::<PostView>::empty());
        assert(keep.push(k)[0] == k);
        assert(mask_keep(s, keep) =~= Seq::<PostView>::empty());
        assert(mask_keep(s.push(p), keep.push(k)) =~= tail);
    } else {
        assert(s.push(p).drop_first() =~= s.drop_first().push(p));
        assert(keep.push(k).drop_first() =~= keep.drop_first().push(k));
        assert(s.push(p)[0] == s[0]);
        assert(keep.push(k)[0] == keep[0]);
        lemma_mask_push(s.drop_first(), keep.drop_first(), p, k);
        let rest = mask_keep(s.drop_first(), keep.drop_first());
        if keep[0] {
            assert(mask_keep(s.push(p), keep.push(k)) =~= seq![s[0]] + (rest + tail));
            assert(mask_keep(s, keep) =~= seq![s[0]] + rest);
            assert(seq![s[0]] + (rest + tail) =~= (seq![s[0]] + rest) + tail);
        } else {
            assert(mask_keep(s.push(p), keep.push(k)) =~= rest + tail);
            assert(mask_keep(s, keep) =~= rest);
        }
    }
}

proof fn lemma_mask_props(s: Seq<PostView>, keep: Seq<bool>)
    requires
        keep.len() == s.len(),
    ensures
        mask_keep(s, keep).len() <= s.len(),
        forall|a: int|
            0 <= a < mask_keep(s, keep).len() ==> exists|b: int|
                0 <= b < s.len() && #[trigger] mask_keep(s, keep)[a] == s[b],
        sorted_desc(s) ==> sorted_desc(mask_keep(s, keep)),
        distinct_ids(s) ==> distinct_ids(mask_keep(s, keep)),
    decreases s.len(),
{
    if s.len() == 0 {
    } else {
        let m = mask_keep(s, keep);
        let rest = mask_keep(s.drop_first(), keep.drop_first());
        lemma_mask_props(s.drop_first(), keep.drop_first());
        assert forall|a: int| 0 <= a < m.len() implies exists|b: int|
            0 <= b < s.len() && #[trigger] m[a] == s[b] by {
            if keep[0] {
                if a == 0 {
                    assert(m[0] == s[0]);
                } else {
                    let b0 = choose|b: int|
                        0 <= b < s.drop_first().len() && rest[a - 1] == s.drop_first()[b];
                    assert(m[a] == rest[a - 1]);
                    assert(s.drop_first()[b0] == s[b0 + 1]);
                }
            } else {
                let b0 = choose|b: int|
                    0 <= b < s.drop_first().len() && rest[a] == s.drop_first()[b];
                assert(m[a] == rest[a]);
                assert(s.drop_first()[b0] == s[b0 + 1]);
            }
        }
        if sorted_desc(s) {
            assert forall|a: int, b: int|
                0 <= a <= b < s.drop_first().len() implies s.drop_first()[a].published
                >= s.drop_first()[b].published by {
                assert(s.drop_first()[a] == s[a + 1]);
                assert(s.drop_first()[b] == s[b + 1]);
            }
            assert forall|a: int, b: int| 0 <= a <= b < m.len() implies m[a].published
                >= m[b].published by {
                if keep[0] && a == 0 {
                    if b > 0 {
                        let b0 = choose|c: int|
                            0 <= c < s.drop_first().len() && rest[b - 1] == s.drop_first()[c];
                        assert(m[b] == rest[b - 1]);
                        assert(s.drop_first()[b0] == s[b0 + 1]);
                        assert(s[0].published >= s[b0 + 1].published);
                    }
                } else {
                    let off: int = if keep[0] {
                        1
                    } else {
                        0
                    };
                    assert(m[a] == rest[a - off]);
                    assert(m[b] == rest[b - off]);
                }
            }
        }
        if distinct_ids(s) {
            assert forall|a: int, b: int|
                0 <= a < b < s.drop_first().len() implies s.drop_first()[a].id
                != s.drop_first()[b].id by {
                assert(s.drop_first()[a] == s[a + 1]);
                assert(s.drop_first()[b] == s[b + 1]);
            }
            assert forall|a: int, b: int| 0 <= a < b < m.len() implies m[a].id != m[b].id by {
                if keep[0] && a == 0 {
                    let b0 = choose|c: int|
                        0 <= c < s.drop_first().len() && rest[b - 1] == s.drop_first()[c];
                    assert(m[b] == rest[b - 1]);
                    assert(s.drop_first()[b0] == s[b0 + 1]);
                    assert(s[0].id != s[b0 + 1].id);
                } else {
                    let off: int = if keep[0] {
                        1
                    } else {
                        0
                    };
                    assert(m[a] == rest[a - off]);
                    assert(m[b] == rest[b - off]);
                }
            }
        }
    }
}

/// A vector of posts sorted by their published date, newest first, with no
/// two posts sharing an identifier, and an unread counter that always
/// equals the number of contained posts with `read == false`.
#[derive(Debug)]
pub struct Posts {
    /// The posts, sorted by `published` descending.
    inner: Vec<Post>,
    /// Number of unread posts within `inner`.
    unread: usize,
}

impl View for Posts {
    type V = Seq<PostView>;

    closed spec fn view(&self) -> Seq<PostView> {
        Seq::new(self.inner@.len(), |i: int| self.inner@[i]@)
    }
}

impl Clone for Posts {
    fn clone(&self) -> (r: Self)
        ensures
            r@ == self@,
            r.wf() == self.wf(),
    {
        let mut inner: Vec<Post> = Vec::new();
        let mut i: usize = 0;
        while i < self.inner.len()
            invariant
                i <= self.inner.len(),
                inner@.len() == i,
                forall|j: int| 0 <= j < i ==> inner@[j]@ == self.inner@[j]@,
            decreases self.inner.len() - i,
        {
            inner.push(self.inner[i].clone());
            i = i + 1;
        }
        let r = Posts { inner, unread: self.unread };
        assert(r@ =~= self@);
        r
    }
}

impl Posts {
    /// The posts as the underlying executable values, in collection order.
    pub closed spec fn elems(self) -> Seq<Post> {
        self.inner@
    }

    /// Well-formed: sorted newest first, no duplicate identifiers, and the
    /// unread counter equal to the number of unread posts. Every operation
    /// of the collection preserves this.
    pub closed spec fn wf(self) -> bool {
        &&& sorted_desc(self@)
        &&& distinct_ids(self@)
        &&& self.unread == unread_count(self@)
    }

    /// Law: a well-formed collection is sorted newest first and holds no
    /// two posts with one identifier, and its elements match its view.
    pub proof fn lemma_wf(self)
        requires
            self.wf(),
        ensures
            sorted_desc(self@),
            distinct_ids(self@),
            self.elems().len() == self@.len(),
            forall|i: int| 0 <= i < self@.len() ==> #[trigger] self.elems()[i]@ == self@[i],
    {
    }

    /// Create a new, empty post collection.
    pub fn new() -> (r: Posts)
        ensures
            r.wf(),
            r@ == Seq::<PostView>::empty(),
    {
        let r = Posts { inner: Vec::new(), unread: 0 };
        assert(r@ =~= Seq::<PostView>::empty());
        r
    }

    /// Build a collection from a batch of posts by inserting them in order.
    pub fn from_posts(v: Vec<Post>) -> (r: Posts)
        ensures
            r.wf(),
            r@ == spec_merge(Seq::<PostView>::empty(), Seq::new(v@.len(), |i: int| v@[i]@)),
    {
        let mut r = Posts::new();
        r.merge_vec(v);
        r
    }

    /// The index of the post with identifier `id`, when present.
    fn index_of(&self, id: &PostId) -> (r: Option<usize>)
        ensures
            match r {
                Some(i) => has_id(self@, id@) && i == id_index(self@, id@) && i < self@.len(),
                None => !has_id(self@, id@),
            },
    {
        let mut i: usize = 0;
        while i < self.inner.len()
            invariant
                i <= self.inner.len(),
                forall|j: int| 0 <= j < i ==> self@[j].id != id@,
            decreases self.inner.len() - i,
        {
            if self.inner[i].id == *id {
                proof {
                    lemma_id_index_first(self@, id@, i as int);
                }
                return Some(i);
            }
            i = i + 1;
        }
        None
    }

    /// Insert a new post into the collection. When a post with the same
    /// identifier is already present the collection is unchanged: the first
    /// write wins, so a re-fetch cannot duplicate a post.
    pub fn insert(&mut self, post: Post)
        requires
            old(self).wf(),
        ensures
            final(self).wf(),
            final(self)@ == spec_insert(old(self)@, post@),
    {
        proof {
            lemma_insert_preserves_inv(old(self)@, post@);
        }
        if self.index_of(&post.id).is_some() {
            return ;
        }
        let published = post.published;
        let mut lo: usize = 0;
        let mut hi: usize = self.inner.len();
        while lo < hi
            invariant
                lo <= hi <= self.inner.len(),
                *self == *old(self),
                sorted_desc(self@),
                forall|j: int| 0 <= j < lo ==> self@[j].published >= published,
                forall|j: int| hi <= j < self@.len() ==> self@[j].published < published,
            decreases hi - lo,
        {
            let mid = lo + (hi - lo) / 2;
            if self.inner[mid].published >= published {
                proof {
                    assert forall|j: int| 0 <= j < mid + 1 implies self@[j].published
                        >= published by {
                        assert(self@[j].published >= self@[mid as int].published);
                    }
                }
                lo = mid + 1;
            } else {
                proof {
                    assert forall|j: int| mid <= j < self@.len() implies self@[j].published
                        < published by {
                        assert(self@[mid as int].published >= self@[j].published);
                    }
                }
                hi = mid;
            }
        }
        proof {
            lemma_insert_index_props(old(self)@, published);
            let ii = insert_index(old(self)@, published);
            assert(!(lo < ii)) by {
                if lo < ii {
                    assert(old(self)@[lo as int].published < published);
                    assert(old(self)@[lo as int].published >= published);
                }
            }
            assert(!(ii < lo)) by {
                if ii < lo {
                    assert(old(self)@[ii].published >= published);
                    assert(old(self)@[ii].published < published);
                }
            }
        }
        let post_unread = !post.read;
        self.inner.insert(lo, post);
        proof {
            assert(self@ =~= old(self)@.insert(lo as int, post@)) by {
                old(self)@.insert_ensures(lo as int, post@);
                old(self).inner@.insert_ensures(lo as int, post);
            }
            assert(self@ == spec_insert(old(self)@, post@));
            assert(unread_count(self@) == unread_count(old(self)@) + (if post@.read {
                0int
            } else {
                1int
            }));
            lemma_uc_le(self@);
            vstd::std_specs::vec::axiom_spec_len(&self.inner);
        }
        if post_unread {
            self.unread = self.unread + 1;
        }
    }

    /// Check whether a post with the same identifier and publication time
    /// as `post` is already in the collection.
    pub fn contains(&self, post: &Post) -> (r: bool)
        ensures
            r == exists|i: int|
                0 <= i < self@.len() && #[trigger] self@[i].id == post@.id && self@[i].published
                    == post@.published,
    {
        let mut i: usize = 0;
        while i < self.inner.len()
            invariant
                i <= self.inner.len(),
                forall|j: int|
                    0 <= j < i ==> !(#[trigger] self@[j].id == post@.id && self@[j].published
                        == post@.published),
            decreases self.inner.len() - i,
        {
            if self.inner[i].published == post.published && self.inner[i].id == post.id {
                proof {
                    assert(self@[i as int].id == post@.id && self@[i as int].published
                        == post@.published);
                }
                return true;
            }
            i = i + 1;
        }
        false
    }

    /// The number of posts in the collection.
    pub fn len(&self) -> (r: usize)
        ensures
            r == self@.len(),
    {
        self.inner.len()
    }

    /// The number of unread posts in the collection. This always equals the
    /// count of contained posts with `read == false`.
    pub fn unread(&self) -> (r: usize)
        requires
            self.wf(),
        ensures
            r == unread_count(self@),
    {
        self.unread
    }

    /// Mark the post `post_id` as read or unread. Does nothing when no such
    /// post exists or it already carries the requested flag.
    pub fn mark_read(&mut self, post_id: &PostId, read: bool)
        requires
            old(self).wf(),
        ensures
            final(self).wf(),
            final(self)@ == spec_mark_read(old(self)@, post_id@, read),
    {
        let idx = match self.index_of(post_id) {
            Some(i) => i,
            None => {
                return ;
            },
        };
        proof {
            lemma_id_index_props(old(self)@, post_id@);
        }
        if self.inner[idx].read == read {
            proof {
                assert(spec_mark_read(old(self)@, post_id@, read) =~= old(self)@);
            }
            return ;
        }
        let mut p = self.inner.remove(idx);
        p.read = read;
        self.inner.insert(idx, p);
        proof {
            let s = old(self)@;
            let q = with_read(s[idx as int], read);
            assert(self@ =~= s.update(idx as int, q)) by {
                old(self).inner@.remove_ensures(idx as int);
                old(self).inner@.remove(idx as int).insert_ensures(
                    idx as int,
                    old(self).inner@[idx as int],
                );
            }
            lemma_uc_update(s, idx as int, q);
            lemma_uc_le(self@);
            vstd::std_specs::vec::axiom_spec_len(&self.inner);
            assert forall|a: int, b: int| 0 <= a <= b < self@.len() implies self@[a].published
                >= self@[b].published by {
                assert(self@[a].published == s[a].published);
                assert(self@[b].published == s[b].published);
            }
            assert forall|a: int, b: int| 0 <= a < b < self@.len() implies self@[a].id
                != self@[b].id by {
                assert(self@[a].id == s[a].id);
                assert(self@[b].id == s[b].id);
            }
        }
        if read {
            proof {
                lemma_uc_update(old(self)@, idx as int, with_read(old(self)@[idx as int], read));
            }
            self.unread = self.unread - 1;
        } else {
            self.unread = self.unread + 1;
        }
    }

    /// Toggle the read flag of the post `post_id`; a missing identifier is
    /// a no-op.
    pub fn toggle_read(&mut self, post_id: &PostId)
        requires
            old(self).wf(),
        ensures
            final(self).wf(),
            final(self)@ == spec_toggle_read(old(self)@, post_id@),
    {
        let idx = match self.index_of(post_id) {
            Some(i) => i,
            None => {
                return ;
            },
        };
        let cur = self.inner[idx].read;
        self.mark_read(post_id, !cur);
    }

    /// Keep only the posts the predicate accepts; the unread counter drops
    /// by the unread posts removed.
    pub fn retain<F: Fn(&Post) -> bool>(&mut self, f: F)
        requires
            old(self).wf(),
            forall|p: &Post| #[trigger] call_requires(f, (p,)),
        ensures
            final(self).wf(),
            exists|keep: Seq<bool>|
                {
                    &&& keep.len() == old(self)@.len()
                    &&& final(self)@ == mask_keep(old(self)@, keep)
                    &&& forall|i: int|
                        0 <= i < keep.len() ==> call_ensures(
                            f,
                            (&old(self).elems()[i],),
                            #[trigger] keep[i],
                        )
                },
    {
        let ghost s0 = self@;
        let ghost e0 = self.elems();
        let mut rev: Vec<Post> = Vec::new();
        while self.inner.len() > 0
            invariant
                rev@.len() + self.inner@.len() == e0.len(),
                forall|j: int| 0 <= j < self.inner@.len() ==> self.inner@[j] == e0[j],
                forall|j: int|
                    0 <= j < rev@.len() ==> #[trigger] rev@[j] == e0[e0.len() - 1 - j],
            decreases self.inner.len(),
        {
            let p = self.inner.pop().unwrap();
            rev.push(p);
        }
        let ghost old_unread = self.unread;
        self.unread = 0;
        let ghost mut keep: Seq<bool> = Seq::empty();
        proof {
            assert(self@ =~= Seq::<PostView>::empty());
            assert(mask_keep(s0.take(0), keep) =~= Seq::<PostView>::empty());
        }
        while rev.len() > 0
            invariant
                forall|p: &Post| #[trigger] call_requires(f, (p,)),
                rev@.len() <= e0.len(),
                forall|j: int|
                    0 <= j < rev@.len() ==> #[trigger] rev@[j] == e0[e0.len() - 1 - j],
                s0.len() == e0.len(),
                forall|j: int| 0 <= j < e0.len() ==> #[trigger] e0[j]@ == s0[j],
                keep.len() == e0.len() - rev@.len(),
                self@ == mask_keep(s0.take(keep.len() as int), keep),
                forall|i: int|
                    0 <= i < keep.len() ==> call_ensures(f, (&e0[i],), #[trigger] keep[i]),
                self.unread == unread_count(self@),
            decreases rev.len(),
        {
            let ghost done = keep.len() as int;
            let p = rev.pop().unwrap();
            proof {
                assert(p == e0[done]);
                assert(p@ == s0[done]);
            }
            let k = f(&p);
            let ghost prev = self@;
            if k {
                self.inner.push(p);
                proof {
                    assert(self@ =~= prev.push(s0[done]));
                }
                if !self.inner[self.inner.len() - 1].read {
                    proof {
                        lemma_uc_le(prev);
                    }
                    self.unread = self.unread + 1;
                }
            }
            proof {
                lemma_uc_push(prev, s0[done], k);
                lemma_mask_push(s0.take(done), keep, s0[done], k);
                assert(s0.take(done + 1) =~= s0.take(done).push(s0[done]));
                if k {
                    assert(self@ =~= mask_keep(s0.take(done), keep) + seq![s0[done]]);
                    assert(self@ =~= mask_keep(s0.take(done + 1), keep.push(k)));
                } else {
                    assert(self@ =~= mask_keep(s0.take(done + 1), keep.push(k)));
                }
                keep = keep.push(k);
            }
        }
        proof {
            assert(s0.take(keep.len() as int) =~= s0);
            lemma_mask_props(s0, keep);
        }
    }

    /// Merge another collection into this one by inserting each of its
    /// posts in order; the first write per identifier wins.
    pub fn append(&mut self, other: Posts)
        requires
            old(self).wf(),
        ensures
            final(self).wf(),
            final(self)@ == spec_merge(old(self)@, other@),
    {
        proof {
            other.lemma_elems_view();
        }
        self.merge_vec(other.inner);
    }

    proof fn lemma_elems_view(self)
        ensures
            self.elems().len() == self@.len(),
            forall|i: int| 0 <= i < self@.len() ==> #[trigger] self.elems()[i]@ == self@[i],
    {
    }

    /// Insert every post of `v`, in order.
    fn merge_vec(&mut self, v: Vec<Post>)
        requires
            old(self).wf(),
        ensures
            final(self).wf(),
            final(self)@ == spec_merge(old(self)@, Seq::new(v@.len(), |i: int| v@[i]@)),
    {
        let ghost t0: Seq<PostView> = Seq::new(v@.len(), |i: int| v@[i]@);
        let mut src = v;
        while src.len() > 0
            invariant
                self.wf(),
                spec_merge(old(self)@, t0) == spec_merge(
                    self@,
                    Seq::new(src@.len(), |i: int| src@[i]@),
                ),
            decreases src.len(),
        {
            let ghost pre = Seq::new(src@.len(), |i: int| src@[i]@);
            let p = src.remove(0);
            let ghost now = Seq::new(src@.len(), |i: int| src@[i]@);
            proof {
                assert(now =~= pre.drop_first());
                assert(pre[0] == p@);
            }
            self.insert(p);
        }
        proof {
            assert(Seq::new(src@.len(), |i: int| src@[i]@) =~= Seq::<PostView>::empty());
        }
    }

    /// A reference to the post with identifier `id`, when present.
    pub fn get_by_id(&self, id: &PostId) -> (r: Option<&Post>)
        ensures
            match r {
                Some(p) => has_id(self@, id@) && p@ == self@[id_index(self@, id@)],
                None => !has_id(self@, id@),
            },
    {
        match self.index_of(id) {
            Some(i) => Some(&self.inner[i]),
            None => None,
        }
    }

    /// A view of the posts as a slice, in collection order.
    pub fn as_ref(&self) -> (r: &[Post])
        ensures
            r@.len() == self@.len(),
            forall|i: int| 0 <= i < self@.len() ==> #[trigger] r@[i]@ == self@[i],
    {
        self.inner.as_slice()
    }
}

proof fn lemma_uc_push(s: Seq<PostView>, p: PostView, k: bool)
    ensures
        unread_count(
            if k {
                s.push(p)
            } else {
                s
            },
        ) == unread_count(s) + (if k && !p.read {
            1int
        } else {
            0int
        }),
    decreases s.len(),
{
    if k {
        lemma_uc_insert(s, s.len() as int, p);
        assert(s.push(p) =~= s.insert(s.len() as int, p));
    }
}

} // verus!
