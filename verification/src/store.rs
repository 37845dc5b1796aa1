//! The persisted store: a single-owner wrapper around an embedded
//! key-value database. Each post is kept under the key
//! `feed URL bytes, one zero separator byte, post identifier bytes`, with
//! the compact binary record of the post as its value, so that a prefix
//! scan of one feed's keys can never see another feed's posts.

use vstd::prelude::*;

verus! {

use vstd::utf8::encode_utf8;
use vstd::string::StringSliceAdditionalSpecFns;
use crate::post::{Post, PostId, PostView};
use crate::posts::{Posts, distinct_ids, ids_determine_posts, lemma_merge_contents};
use crate::codec::{decode_post, enc_post, encode_post, lemma_enc_post_injective, post_ok,
    push_bytes};

/// Whether `p` is a prefix of `k`.
pub open spec fn starts_with(p: Seq<u8>, k: Seq<u8>) -> bool {
    p.len() <= k.len() && k.take(p.len() as int) == p
}

/// The key prefix of a feed: the URL's UTF-8 bytes and a zero separator,
/// which is lower than any byte a URL character encodes to.
pub open spec fn feed_prefix(url: Seq<char>) -> Seq<u8> {
    encode_utf8(url).push(0u8)
}

/// The key of one post: the feed prefix followed by the identifier bytes.
pub open spec fn post_key(url: Seq<char>, id: Seq<char>) -> Seq<u8> {
    feed_prefix(url) + encode_utf8(id)
}

/// A string without the NUL character; feed URLs are such strings.
pub open spec fn nul_free(s: Seq<char>) -> bool {
    forall|i: int| 0 <= i < s.len() ==> s[i] != '\0'
}

/// The store contents after saving `posts` under `url`: every post
/// upserted at its key with its encoded record, in batch order.
pub open spec fn save_model(
    m: Map<Seq<u8>, Seq<u8>>,
    url: Seq<char>,
    posts: Seq<PostView>,
) -> Map<Seq<u8>, Seq<u8>>
    decreases posts.len(),
{
    if posts.len() == 0 {
        m
    } else {
        save_model(
            m.insert(post_key(url, posts[0].id), enc_post(posts[0])),
            url,
            posts.drop_first(),
        )
    }
}

/// The posts that the keys of `url` hold in store contents `m`.
pub open spec fn loaded_posts(m: Map<Seq<u8>, Seq<u8>>, url: Seq<char>) -> Set<PostView> {
    Set::new(
        |p: PostView|
            post_ok(p) && exists|k: Seq<u8>|
                #[trigger] m.dom().contains(k) && starts_with(feed_prefix(url), k) && m[k]
                    == enc_post(p),
    )
}

/// No two posts of the set disagree under one identifier.
pub open spec fn set_ids_determine(s: Set<PostView>) -> bool {
    forall|p: PostView, q: PostView|
        s.contains(p) && s.contains(q) && #[trigger] p.id == #[trigger] q.id ==> p == q
}

/// The UTF-8 encoding of a NUL-free string contains no zero byte: every
/// character either encodes to its own nonzero byte or to bytes with their
/// high bit set.
proof fn lemma_utf8_nul_free(s: Seq<char>)
    requires
        nul_free(s),
    ensures
        forall|j: int| 0 <= j < encode_utf8(s).len() ==> encode_utf8(s)[j] != 0,
    decreases s.len(),
{
    if s.len() > 0 {
        let c = s[0] as u32;
        vstd::utf8::char_is_scalar(s[0]);
        assert(c != 0) by {
            if c == 0 {
                vstd::utf8::char_u32_cast(s[0], 0);
                assert((0u32 as char) == s[0]);
                assert(s[0] == '\0');
            }
        }
        let e = vstd::utf8::encode_scalar(c);
        assert(forall|j: int| 0 <= j < e.len() ==> e[j] != 0) by {
            assert(c != 0 && c <= 0x7f ==> (c & 0x7f) as u8 != 0) by (bit_vector);
            assert(forall|x: u32| #![auto] (0xC0u8 | ((x >> 6) & 0x1F) as u8) != 0)
                by (bit_vector);
            assert(forall|x: u32| #![auto] (0xE0u8 | ((x >> 12) & 0x0F) as u8) != 0)
                by (bit_vector);
            assert(forall|x: u32| #![auto] (0xF0u8 | ((x >> 18) & 0x7) as u8) != 0)
                by (bit_vector);
            assert(forall|x: u32| #![auto] (0x80u8 | (x & 0x3F) as u8) != 0) by (bit_vector);
            assert(forall|x: u32| #![auto] (0x80u8 | ((x >> 6) & 0x3F) as u8) != 0)
                by (bit_vector);
            assert(forall|x: u32| #![auto] (0x80u8 | ((x >> 12) & 0x3F) as u8) != 0)
                by (bit_vector);
        }
        assert forall|i: int| 0 <= i < s.drop_first().len() implies s.drop_first()[i] != '\0' by {
            assert(s.drop_first()[i] == s[i + 1]);
        }
        lemma_utf8_nul_free(s.drop_first());
        assert forall|j: int| 0 <= j < encode_utf8(s).len() implies encode_utf8(s)[j] != 0 by {
            if j < e.len() {
                assert(encode_utf8(s)[j] == e[j]);
            } else {
                assert(encode_utf8(s)[j] == encode_utf8(s.drop_first())[j - e.len()]);
            }
        }
    }
}

/// One feed's post keys never fall under another feed's prefix: the zero
/// separator stops a shorter URL from matching, and equal-length URL bytes
/// mean equal URLs.
proof fn lemma_key_disjoint(a: Seq<char>, b: Seq<char>, id: Seq<char>)
    requires
        a != b,
        nul_free(a),
        nul_free(b),
    ensures
        !starts_with(feed_prefix(b), post_key(a, id)),
{
    let ab = encode_utf8(a);
    let bb = encode_utf8(b);
    let key = post_key(a, id);
    if starts_with(feed_prefix(b), key) {
        lemma_utf8_nul_free(a);
        lemma_utf8_nul_free(b);
        if bb.len() < ab.len() {
            assert(key.take(feed_prefix(b).len() as int)[bb.len() as int] == 0);
            assert(key[bb.len() as int] == ab[bb.len() as int]);
        } else if bb.len() == ab.len() {
            assert(bb =~= key.take(feed_prefix(b).len() as int).take(bb.len() as int));
            assert(ab =~= key.take(ab.len() as int));
            assert(bb =~= ab);
            crate::codec::lemma_utf8_injective(a, b);
        } else {
            assert(key.take(feed_prefix(b).len() as int)[ab.len() as int] == bb[ab.len() as int]);
            assert(key[ab.len() as int] == 0);
        }
    }
}

/// Keys of distinct identifiers are distinct.
proof fn lemma_key_injective_ids(url: Seq<char>, id1: Seq<char>, id2: Seq<char>)
    requires
        post_key(url, id1) == post_key(url, id2),
    ensures
        id1 == id2,
{
    let pre = feed_prefix(url);
    assert(encode_utf8(id1) =~= post_key(url, id1).skip(pre.len() as int));
    assert(encode_utf8(id2) =~= post_key(url, id2).skip(pre.len() as int));
    crate::codec::lemma_utf8_injective(id1, id2);
}

/// Saving touches only the batch's own keys: anything else keeps its
/// presence and value.
proof fn lemma_save_model_frame(m: Map<Seq<u8>, Seq<u8>>, url: Seq<char>, ps: Seq<PostView>)
    ensures
        forall|k: Seq<u8>| #[trigger]
            save_model(m, url, ps).dom().contains(k) ==> m.dom().contains(k) || exists|i: int|
                0 <= i < ps.len() && k == post_key(url, #[trigger] ps[i].id),
        forall|k: Seq<u8>|
            m.dom().contains(k) ==> #[trigger] save_model(m, url, ps).dom().contains(k),
        forall|k: Seq<u8>|
            (forall|i: int| 0 <= i < ps.len() ==> k != post_key(url, #[trigger] ps[i].id))
                && m.dom().contains(k) ==> #[trigger] save_model(m, url, ps)[k] == m[k],
        forall|k: Seq<u8>|
            (forall|i: int| 0 <= i < ps.len() ==> k != post_key(url, #[trigger] ps[i].id)) && !(
            m.dom().contains(k)) ==> !(#[trigger] save_model(m, url, ps).dom().contains(k)),
    decreases ps.len(),
{
    if ps.len() > 0 {
        let m2 = m.insert(post_key(url, ps[0].id), enc_post(ps[0]));
        lemma_save_model_frame(m2, url, ps.drop_first());
        assert(save_model(m, url, ps) == save_model(m2, url, ps.drop_first()));
        assert forall|k: Seq<u8>| #[trigger]
            save_model(m, url, ps).dom().contains(k) implies m.dom().contains(k) || exists|i: int|
            0 <= i < ps.len() && k == post_key(url, #[trigger] ps[i].id) by {
            if !m.dom().contains(k) {
                if k == post_key(url, ps[0].id) {
                    assert(k == post_key(url, ps[0].id));
                } else {
                    assert(save_model(m2, url, ps.drop_first()).dom().contains(k));
                    assert(!m2.dom().contains(k));
                    assert(exists|i: int|
                        0 <= i < ps.drop_first().len() && k == post_key(
                            url,
                            #[trigger] ps.drop_first()[i].id,
                        ));
                    let w = choose|i: int|
                        0 <= i < ps.drop_first().len() && k == post_key(
                            url,
                            #[trigger] ps.drop_first()[i].id,
                        );
                    assert(ps.drop_first()[w] == ps[w + 1]);
                }
            }
        }
        assert forall|k: Seq<u8>|
            (forall|i: int| 0 <= i < ps.len() ==> k != post_key(url, #[trigger] ps[i].id))
                && m.dom().contains(k) implies #[trigger] save_model(m, url, ps)[k] == m[k] by {
            assert(k != post_key(url, ps[0].id));
            assert forall|i: int|
                0 <= i < ps.drop_first().len() implies k != post_key(
                url,
                #[trigger] ps.drop_first()[i].id,
            ) by {
                assert(ps.drop_first()[i] == ps[i + 1]);
            }
        }
        assert forall|k: Seq<u8>|
            (forall|i: int| 0 <= i < ps.len() ==> k != post_key(url, #[trigger] ps[i].id)) && !(
            m.dom().contains(k)) implies !(#[trigger] save_model(m, url, ps).dom().contains(
            k,
        )) by {
            assert(k != post_key(url, ps[0].id));
            assert forall|i: int|
                0 <= i < ps.drop_first().len() implies k != post_key(
                url,
                #[trigger] ps.drop_first()[i].id,
            ) by {
                assert(ps.drop_first()[i] == ps[i + 1]);
            }
        }
    }
}

/// With no two batch posts sharing an identifier, every batch post's key
/// ends up holding that post's record.
proof fn lemma_save_model_values(m: Map<Seq<u8>, Seq<u8>>, url: Seq<char>, ps: Seq<PostView>)
    requires
        distinct_ids(ps),
    ensures
        forall|i: int|
            0 <= i < ps.len() ==> #[trigger] save_model(m, url, ps).dom().contains(
                post_key(url, ps[i].id),
            ) && save_model(m, url, ps)[post_key(url, ps[i].id)] == enc_post(ps[i]),
    decreases ps.len(),
{
    if ps.len() > 0 {
        let k0 = post_key(url, ps[0].id);
        let m2 = m.insert(k0, enc_post(ps[0]));
        assert forall|a: int, b: int|
            0 <= a < b < ps.drop_first().len() implies ps.drop_first()[a].id
            != ps.drop_first()[b].id by {
            assert(ps.drop_first()[a] == ps[a + 1]);
            assert(ps.drop_first()[b] == ps[b + 1]);
        }
        lemma_save_model_values(m2, url, ps.drop_first());
        lemma_save_model_frame(m2, url, ps.drop_first());
        assert(save_model(m, url, ps) == save_model(m2, url, ps.drop_first()));
        assert forall|i: int|
            0 <= i < ps.len() implies #[trigger] save_model(m, url, ps).dom().contains(
            post_key(url, ps[i].id),
        ) && save_model(m, url, ps)[post_key(url, ps[i].id)] == enc_post(ps[i]) by {
            if i == 0 {
                assert forall|j: int|
                    0 <= j < ps.drop_first().len() implies k0 != post_key(
                    url,
                    #[trigger] ps.drop_first()[j].id,
                ) by {
                    if k0 == post_key(url, ps.drop_first()[j].id) {
                        lemma_key_injective_ids(url, ps[0].id, ps.drop_first()[j].id);
                        assert(ps.drop_first()[j] == ps[j + 1]);
                    }
                }
                assert(m2.dom().contains(k0) && m2[k0] == enc_post(ps[0]));
                assert(save_model(m2, url, ps.drop_first()).dom().contains(k0));
                assert(save_model(m2, url, ps.drop_first())[k0] == m2[k0]);
            } else {
                assert(ps.drop_first()[i - 1] == ps[i]);
                assert(save_model(m2, url, ps.drop_first()).dom().contains(
                    post_key(url, ps.drop_first()[i - 1].id),
                ));
                assert(save_model(m2, url, ps.drop_first())[post_key(url, ps.drop_first()[i
                    - 1].id)] == enc_post(ps.drop_first()[i - 1]));
            }
        }
    }
}

/// Law: saving a batch under a feed URL that the store holds nothing for,
/// then collecting that URL's keys, yields exactly the saved posts, read
/// flags and all.
pub proof fn lemma_save_load_round_trip(
    m: Map<Seq<u8>, Seq<u8>>,
    url: Seq<char>,
    posts: Seq<PostView>,
)
    requires
        forall|k: Seq<u8>| #[trigger] m.dom().contains(k) ==> !starts_with(feed_prefix(url), k),
        distinct_ids(posts),
        forall|i: int| 0 <= i < posts.len() ==> post_ok(#[trigger] posts[i]),
    ensures
        loaded_posts(save_model(m, url, posts), url) =~= posts.to_set(),
{
    let m2 = save_model(m, url, posts);
    lemma_save_model_frame(m, url, posts);
    lemma_save_model_values(m, url, posts);
    assert forall|p: PostView| loaded_posts(m2, url).contains(p) implies posts.to_set().contains(
        p,
    ) by {
        let k = choose|k: Seq<u8>|
            #[trigger] m2.dom().contains(k) && starts_with(feed_prefix(url), k) && m2[k]
                == enc_post(p);
        assert(!m.dom().contains(k));
        let w = choose|i: int| 0 <= i < posts.len() && k == post_key(url, #[trigger] posts[i].id);
        assert(m2[k] == enc_post(posts[w]));
        lemma_enc_post_injective(p, posts[w]);
        assert(posts.contains(p));
    }
    assert forall|p: PostView| posts.to_set().contains(p) implies loaded_posts(m2, url).contains(
        p,
    ) by {
        assert(posts.contains(p));
        let w = choose|i: int| 0 <= i < posts.len() && posts[i] == p;
        let k = post_key(url, posts[w].id);
        assert(m2.dom().contains(post_key(url, posts[w].id)));
        assert(m2[post_key(url, posts[w].id)] == enc_post(posts[w]));
        assert(starts_with(feed_prefix(url), k)) by {
            assert(k.take(feed_prefix(url).len() as int) =~= feed_prefix(url));
        }
    }
}

/// Law: saving a feed's posts never changes what any other feed loads,
/// even when one URL is a prefix of the other.
pub proof fn lemma_feed_isolation(
    m: Map<Seq<u8>, Seq<u8>>,
    a: Seq<char>,
    b: Seq<char>,
    posts: Seq<PostView>,
)
    requires
        a != b,
        nul_free(a),
        nul_free(b),
    ensures
        loaded_posts(save_model(m, a, posts), b) =~= loaded_posts(m, b),
{
    let m2 = save_model(m, a, posts);
    lemma_save_model_frame(m, a, posts);
    assert forall|p: PostView| loaded_posts(m2, b).contains(p) implies loaded_posts(
        m,
        b,
    ).contains(p) by {
        let k = choose|k: Seq<u8>|
            #[trigger] m2.dom().contains(k) && starts_with(feed_prefix(b), k) && m2[k] == enc_post(
                p,
            );
        assert forall|i: int| 0 <= i < posts.len() implies k != post_key(
            a,
            #[trigger] posts[i].id,
        ) by {
            lemma_key_disjoint(a, b, posts[i].id);
        }
        assert(m.dom().contains(k) && m[k] == enc_post(p));
    }
    assert forall|p: PostView| loaded_posts(m, b).contains(p) implies loaded_posts(
        m2,
        b,
    ).contains(p) by {
        let k = choose|k: Seq<u8>|
            #[trigger] m.dom().contains(k) && starts_with(feed_prefix(b), k) && m[k] == enc_post(
                p,
            );
        assert forall|i: int| 0 <= i < posts.len() implies k != post_key(
            a,
            #[trigger] posts[i].id,
        ) by {
            lemma_key_disjoint(a, b, posts[i].id);
        }
        assert(m2.dom().contains(k) && m2[k] == enc_post(p));
    }
}

/// An error of the persisted store: any failure of the underlying
/// database collapses to it, since retrying is the caller's business.
#[derive(Debug, Clone, Copy, PartialEq, Eq, Structural)]
pub enum StoreError {
    /// The database could not be opened, written, read, or flushed.
    Storage,
}

/// Build the key of one post: feed URL bytes, a zero separator, then the
/// identifier bytes.
pub fn make_key(feed_url: &str, id: &PostId) -> (r: Vec<u8>)
    ensures
        r@ == post_key(feed_url@, id@),
{
    let mut key: Vec<u8> = Vec::new();
    push_bytes(&mut key, feed_url.as_bytes());
    key.push(0u8);
    push_bytes(&mut key, id.0.as_str().as_bytes());
    proof {
        assert(key@ =~= post_key(feed_url@, id@));
    }
    key
}

/// Build the scan prefix of one feed: its URL bytes and the separator.
pub fn make_feed_prefix(feed_url: &str) -> (r: Vec<u8>)
    ensures
        r@ == feed_prefix(feed_url@),
{
    let mut key: Vec<u8> = Vec::new();
    push_bytes(&mut key, feed_url.as_bytes());
    key.push(0u8);
    proof {
        assert(key@ =~= feed_prefix(feed_url@));
    }
    key
}

#[verifier::external_type_specification]
#[verifier::external_body]
pub struct ExSledDb(sled::Db);

#[verifier::external_type_specification]
#[verifier::external_body]
pub struct ExSledTree(sled::Tree);

/// What the posts tree of the database holds: a map from key bytes to
/// value bytes.
pub uninterp spec fn tree_entries(t: sled::Tree) -> Map<Seq<u8>, Seq<u8>>;

/// The persisted store: exclusive owner of an embedded database and of
/// its tree of post records.
pub struct Store {
    /// The database handle; kept so the tree outlives any caches inside.
    db: sled::Db,
    /// The tree of post records.
    tree: sled::Tree,
}

impl View for Store {
    type V = Map<Seq<u8>, Seq<u8>>;

    closed spec fn view(&self) -> Map<Seq<u8>, Seq<u8>> {
        tree_entries(self.tree)
    }
}

impl Store {
    /// Relies on `sled::open` and `sled::Db::open_tree`: opens (or creates)
    /// the database at `path` and its tree of post records. What the tree
    /// holds depends on the disk, so nothing is promised of the contents.
    #[verifier::external_body]
    pub fn open(path: &str) -> (r: Result<Store, StoreError>) {
        let db = sled::open(path).map_err(|_| StoreError::Storage)?;
        let tree = db.open_tree("posts").map_err(|_| StoreError::Storage)?;
        Ok(Store { db, tree })
    }

    /// Relies on `sled::Config::temporary`: opens a database backed by a
    /// temporary directory that is removed when the store is dropped.
    #[verifier::external_body]
    pub fn open_temporary() -> (r: Result<Store, StoreError>) {
        let db = sled::Config::new().temporary(true).open().map_err(|_| StoreError::Storage)?;
        let tree = db.open_tree("posts").map_err(|_| StoreError::Storage)?;
        Ok(Store { db, tree })
    }

    /// Relies on `sled::Tree::insert`: an upsert of `key` to `value`. On
    /// an error the upsert either took effect or left the tree as it was.
    #[verifier::external_body]
    fn put(&mut self, key: &Vec<u8>, value: Vec<u8>) -> (r: Result<(), StoreError>)
        ensures
            r is Ok ==> tree_entries(final(self).tree) == tree_entries(old(self).tree).insert(
                key@,
                value@,
            ),
            r is Err ==> tree_entries(final(self).tree) == tree_entries(old(self).tree)
                || tree_entries(final(self).tree) == tree_entries(old(self).tree).insert(
                key@,
                value@,
            ),
    {
        match self.tree.insert(key.as_slice(), value) {
            Ok(_) => Ok(()),
            Err(_) => Err(StoreError::Storage),
        }
    }

    /// Relies on `sled::Tree::flush`: writes dirty buffers to disk and
    /// syncs. The logical contents are untouched.
    #[verifier::external_body]
    fn flush(&self) -> (r: Result<(), StoreError>) {
        match self.tree.flush() {
            Ok(_) => Ok(()),
            Err(_) => Err(StoreError::Storage),
        }
    }

    /// Relies on `sled::Tree::scan_prefix`: yields exactly the entries
    /// whose key begins with `prefix`, each with its stored value.
    #[verifier::external_body]
    fn scan(&self, prefix: &Vec<u8>) -> (r: Result<Vec<(Vec<u8>, Vec<u8>)>, StoreError>)
        ensures
            r matches Ok(entries) ==> {
                &&& forall|i: int|
                    0 <= i < entries@.len() ==> tree_entries(self.tree).dom().contains(
                        #[trigger] entries@[i].0@,
                    ) && starts_with(prefix@, entries@[i].0@) && entries@[i].1@ == tree_entries(
                        self.tree,
                    )[entries@[i].0@]
                &&& forall|k: Seq<u8>|
                    #[trigger] tree_entries(self.tree).dom().contains(k) && starts_with(prefix@, k)
                        ==> exists|i: int|
                        0 <= i < entries@.len() && #[trigger] entries@[i].0@ == k
            },
    {
        self.tree.scan_prefix(prefix.as_slice()).map(
            |item| item.map(|(k, v)| (k.to_vec(), v.to_vec())),
        ).collect::<Result<Vec<(Vec<u8>, Vec<u8>)>, sled::Error>>().map_err(
            |_| StoreError::Storage,
        )
    }

    /// Save every post of the collection under `feed_url`: an upsert per
    /// post, flushed to durable storage after the batch. On an error a
    /// prefix of the batch may have been stored.
    pub fn save_posts(&mut self, feed_url: &str, posts: &Posts) -> (r: Result<(), StoreError>)
        ensures
            r is Ok ==> final(self)@ == save_model(old(self)@, feed_url@, posts@),
            r is Err ==> exists|j: int|
                0 <= j <= posts@.len() && final(self)@ == save_model(
                    old(self)@,
                    feed_url@,
                    posts@.take(j),
                ),
    {
        let slice = posts.as_ref();
        let mut i: usize = 0;
        proof {
            assert(posts@.take(0) =~= Seq::<PostView>::empty());
        }
        while i < slice.len()
            invariant
                i <= slice@.len(),
                slice@.len() == posts@.len(),
                forall|j: int| 0 <= j < posts@.len() ==> #[trigger] slice@[j]@ == posts@[j],
                self@ == save_model(old(self)@, feed_url@, posts@.take(i as int)),
            decreases slice@.len() - i,
        {
            let p = &slice[i];
            let key = make_key(feed_url, &p.id);
            let value = encode_post(p);
            let ghost pre = self@;
            match self.put(&key, value) {
                Ok(_) => {},
                Err(e) => {
                    proof {
                        lemma_save_model_push(
                            old(self)@,
                            feed_url@,
                            posts@.take(i as int),
                            posts@[i as int],
                        );
                        assert(posts@.take(i + 1) =~= posts@.take(i as int).push(
                            posts@[i as int],
                        ));
                        if self@ == pre {
                            assert(self@ == save_model(old(self)@, feed_url@, posts@.take(i as int)));
                        } else {
                            assert(self@ == save_model(old(self)@, feed_url@, posts@.take(i + 1)));
                        }
                    }
                    return Err(e);
                },
            }
            proof {
                lemma_save_model_push(old(self)@, feed_url@, posts@.take(i as int), posts@[i as int]);
                assert(posts@.take(i + 1) =~= posts@.take(i as int).push(posts@[i as int]));
            }
            i = i + 1;
        }
        proof {
            assert(posts@.take(posts@.len() as int) =~= posts@);
        }
        match self.flush() {
            Ok(_) => Ok(()),
            Err(e) => {
                proof {
                    assert(self@ == save_model(old(self)@, feed_url@, posts@.take(
                        posts@.len() as int,
                    )));
                }
                Err(e)
            },
        }
    }

    /// Load every post stored under `feed_url` into a fresh collection:
    /// a prefix scan of the feed's keys, handed to `posts_from_entries`.
    /// Only the scan can fail. The collection re-establishes sort order,
    /// dedup and the unread count from scratch; it holds only stored
    /// posts of this feed, and all of them when no two stored records
    /// disagree under one identifier.
    pub fn load_feed(&self, feed_url: &str) -> (r: Result<Posts, StoreError>)
        ensures
            r matches Ok(ps) ==> {
                &&& ps.wf()
                &&& forall|i: int|
                    0 <= i < ps@.len() ==> loaded_posts(self@, feed_url@).contains(
                        #[trigger] ps@[i],
                    )
                &&& set_ids_determine(loaded_posts(self@, feed_url@)) ==> forall|p: PostView|
                    loaded_posts(self@, feed_url@).contains(p) ==> ps@.contains(p)
            },
    {
        let prefix = make_feed_prefix(feed_url);
        let entries = match self.scan(&prefix) {
            Ok(e) => e,
            Err(e) => {
                return Err(e);
            },
        };
        let ghost es = entries@;
        let ps = posts_from_entries(entries);
        proof {
            let ls = loaded_posts(self@, feed_url@);
            assert forall|i: int| 0 <= i < ps@.len() implies ls.contains(#[trigger] ps@[i]) by {
                assert(entry_encodes(es, ps@[i]));
                let j = choose|j: int| 0 <= j < es.len() && enc_post(ps@[i]) == #[trigger] es[j].1@;
                assert(self@.dom().contains(es[j].0@) && starts_with(
                    feed_prefix(feed_url@),
                    es[j].0@,
                ) && self@[es[j].0@] == enc_post(ps@[i]));
            }
            if set_ids_determine(ls) {
                assert(entries_ids_determined(es)) by {
                    assert forall|p: PostView, q: PostView|
                        post_ok(p) && post_ok(q) && #[trigger] entry_encodes(es, p)
                            && #[trigger] entry_encodes(es, q) && p.id == q.id implies p == q by {
                        let jp = choose|j: int|
                            0 <= j < es.len() && enc_post(p) == #[trigger] es[j].1@;
                        assert(self@.dom().contains(es[jp].0@) && starts_with(
                            feed_prefix(feed_url@),
                            es[jp].0@,
                        ) && self@[es[jp].0@] == enc_post(p));
                        assert(ls.contains(p));
                        let jq = choose|j: int|
                            0 <= j < es.len() && enc_post(q) == #[trigger] es[j].1@;
                        assert(self@.dom().contains(es[jq].0@) && starts_with(
                            feed_prefix(feed_url@),
                            es[jq].0@,
                        ) && self@[es[jq].0@] == enc_post(q));
                        assert(ls.contains(q));
                    }
                }
                assert forall|p: PostView| ls.contains(p) implies ps@.contains(p) by {
                    let k = choose|k: Seq<u8>|
                        #[trigger] self@.dom().contains(k) && starts_with(
                            feed_prefix(feed_url@),
                            k,
                        ) && self@[k] == enc_post(p);
                    let j = choose|j: int| 0 <= j < es.len() && #[trigger] es[j].0@ == k;
                    assert(enc_post(p) == es[j].1@);
                    assert(entry_encodes(es, p));
                }
            }
        }
        Ok(ps)
    }
}

/// Whether some entry's value is exactly the encoding of `p`.
pub open spec fn entry_encodes(es: Seq<(Vec<u8>, Vec<u8>)>, p: PostView) -> bool {
    exists|j: int| 0 <= j < es.len() && enc_post(p) == #[trigger] es[j].1@
}

/// No two records among the entries stand for posts that share an
/// identifier but differ elsewhere.
pub open spec fn entries_ids_determined(es: Seq<(Vec<u8>, Vec<u8>)>) -> bool {
    forall|p: PostView, q: PostView|
        post_ok(p) && post_ok(q) && #[trigger] entry_encodes(es, p) && #[trigger] entry_encodes(
            es,
            q,
        ) && p.id == q.id ==> p == q
}

/// Decode a batch of scanned entries into a fresh collection. Every value
/// that is exactly the encoding of a post contributes that post; any
/// other value is skipped, so a corrupt record never fails a load. The
/// result is well-formed, holds only such posts, and holds all of them
/// when no two records disagree under one identifier.
pub fn posts_from_entries(entries: Vec<(Vec<u8>, Vec<u8>)>) -> (r: Posts)
    ensures
        r.wf(),
        forall|i: int|
            0 <= i < r@.len() ==> post_ok(#[trigger] r@[i]) && entry_encodes(entries@, r@[i]),
        entries_ids_determined(entries@) ==> forall|p: PostView|
            post_ok(p) && #[trigger] entry_encodes(entries@, p) ==> r@.contains(p),
{
    let mut decoded: Vec<Post> = Vec::new();
    let mut i: usize = 0;
    while i < entries.len()
        invariant
            i <= entries@.len(),
            forall|j: int|
                0 <= j < decoded@.len() ==> post_ok(#[trigger] decoded@[j]@) && entry_encodes(
                    entries@,
                    decoded@[j]@,
                ),
            forall|j: int, p: PostView|
                #![trigger enc_post(p), entries@[j].1@]
                0 <= j < i && post_ok(p) && enc_post(p) == entries@[j].1@ ==> exists|d: int|
                    0 <= d < decoded@.len() && #[trigger] decoded@[d]@ == p,
        decreases entries@.len() - i,
    {
        let ghost pre = decoded@;
        match decode_post(entries[i].1.as_slice()) {
            Some(q) => {
                let ghost qv = q@;
                proof {
                    assert(enc_post(qv) == entries@[i as int].1@);
                    assert(entry_encodes(entries@, qv));
                }
                decoded.push(q);
                proof {
                    assert(decoded@[decoded@.len() - 1]@ == qv);
                    assert forall|j: int|
                        0 <= j < decoded@.len() implies post_ok(#[trigger] decoded@[j]@)
                            && entry_encodes(entries@, decoded@[j]@) by {
                        if j < pre.len() {
                            assert(decoded@[j] == pre[j]);
                        }
                    }
                    assert forall|j: int, p: PostView|
                        #![trigger enc_post(p), entries@[j].1@]
                        0 <= j < i + 1 && post_ok(p) && enc_post(p)
                            == entries@[j].1@ implies exists|d: int|
                        0 <= d < decoded@.len() && #[trigger] decoded@[d]@ == p by {
                        if j == i {
                            lemma_enc_post_injective(p, qv);
                            assert(decoded@[decoded@.len() - 1]@ == p);
                        } else {
                            let d = choose|d: int| 0 <= d < pre.len() && #[trigger] pre[d]@ == p;
                            assert(decoded@[d]@ == p);
                        }
                    }
                }
            },
            None => {
                proof {
                    assert forall|j: int, p: PostView|
                        #![trigger enc_post(p), entries@[j].1@]
                        0 <= j < i + 1 && post_ok(p) && enc_post(p)
                            == entries@[j].1@ implies exists|d: int|
                        0 <= d < decoded@.len() && #[trigger] decoded@[d]@ == p by {
                        if j == i {
                            assert(enc_post(p) != entries@[i as int].1@);
                        } else {
                            let d = choose|d: int| 0 <= d < pre.len() && #[trigger] pre[d]@ == p;
                            assert(decoded@[d]@ == p);
                        }
                    }
                }
            },
        }
        i = i + 1;
    }
    let ps = Posts::from_posts(decoded);
    proof {
        let dv = Seq::new(decoded@.len(), |j: int| decoded@[j]@);
        lemma_merge_contents(Seq::<PostView>::empty(), dv);
        assert forall|j: int| 0 <= j < ps@.len() implies post_ok(#[trigger] ps@[j])
            && entry_encodes(entries@, ps@[j]) by {
            assert(ps@.contains(ps@[j]));
            assert(dv.contains(ps@[j]) || Seq::<PostView>::empty().contains(ps@[j]));
            let w = choose|d: int| 0 <= d < dv.len() && dv[d] == ps@[j];
            assert(decoded@[w]@ == ps@[j]);
        }
        if entries_ids_determined(entries@) {
            assert(ids_determine_posts(dv)) by {
                assert forall|x: int, y: int|
                    0 <= x < dv.len() && 0 <= y < dv.len() && #[trigger] dv[x].id
                        == #[trigger] dv[y].id implies dv[x] == dv[y] by {
                    assert(post_ok(decoded@[x]@) && entry_encodes(entries@, decoded@[x]@));
                    assert(post_ok(decoded@[y]@) && entry_encodes(entries@, decoded@[y]@));
                }
            }
            assert forall|p: PostView|
                post_ok(p) && #[trigger] entry_encodes(entries@, p) implies ps@.contains(p) by {
                let j = choose|j: int| 0 <= j < entries@.len() && enc_post(p) == #[trigger] entries@[j].1@;
                let d = choose|d: int| 0 <= d < decoded@.len() && #[trigger] decoded@[d]@ == p;
                assert(dv[d] == p);
                assert(dv.contains(p));
            }
        }
    }
    ps
}

/// Saving one more post is one more upsert at that post's key.
proof fn lemma_save_model_push(
    m: Map<Seq<u8>, Seq<u8>>,
    url: Seq<char>,
    ps: Seq<PostView>,
    x: PostView,
)
    ensures
        save_model(m, url, ps.push(x)) == save_model(m, url, ps).insert(
            post_key(url, x.id),
            enc_post(x),
        ),
    decreases ps.len(),
{
    if ps.len() == 0 {
        assert(ps.push(x)[0] == x);
        assert(ps.push(x).drop_first() =~= Seq::<PostView>::empty());
        assert(save_model(m, url, ps.push(x)) == save_model(
            m.insert(post_key(url, x.id), enc_post(x)),
            url,
            Seq::<PostView>::empty(),
        ));
    } else {
        assert(ps.push(x)[0] == ps[0]);
        assert(ps.push(x).drop_first() =~= ps.drop_first().push(x));
        lemma_save_model_push(
            m.insert(post_key(url, ps[0].id), enc_post(ps[0])),
            url,
            ps.drop_first(),
            x,
        );
    }
}

} // verus!
