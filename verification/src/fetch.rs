//! The fetch protocol: the requests the application sends to the worker
//! pool, the responses workers send back, and the decisions a worker
//! takes. The network read itself happens outside; this module fixes what
//! each outcome means and the per-feed order of responses: `Started`,
//! then `Failed` or `Finished`.

use vstd::prelude::*;

verus! {

use crate::post::{Post, PostView};
use crate::config::FeedConfig;
use crate::extract::{extract_posts, post_views, sort_batch, posts_of_entries, doc_entries,
    opt_view};

/// Feed index information: a section index and a feed index within it.
/// An in-memory addressing convenience only; never persisted, since
/// indices shift when the feed list changes.
#[derive(Debug, Clone, Copy, PartialEq, Eq, Hash, Structural)]
pub struct FeedId {
    /// Index of the section.
    pub section_idx: usize,
    /// Index of the feed within its section.
    pub feed_idx: usize,
}

/// A map of sections to feed URLs, by index: the fan-out plan of a
/// download-all request, one worker per section.
#[derive(Debug)]
pub struct UrlMap(pub Vec<Vec<String>>);

impl View for UrlMap {
    type V = Seq<Seq<Seq<char>>>;

    open spec fn view(&self) -> Seq<Seq<Seq<char>>> {
        Seq::new(
            self.0@.len(),
            |i: int| Seq::new(self.0@[i]@.len(), |j: int| self.0@[i]@[j]@),
        )
    }
}

/// A download request from the application to the worker pool.
#[derive(Debug)]
pub enum DownloadRequest {
    /// Download a single feed.
    Feed {
        /// Which feed.
        feed: FeedId,
        /// Its URL.
        url: String,
    },
    /// Download every feed, one worker per section.
    All(UrlMap),
}

/// The three per-feed signals of the fetch protocol.
#[derive(Debug, Clone, Copy, PartialEq, Eq, Structural)]
pub enum Signal {
    /// The worker is about to fetch the feed.
    Started,
    /// No document could be obtained for the feed this round.
    Failed,
    /// The fetch concluded; the extracted posts accompany it.
    Finished,
}

/// A response from a worker to the application.
#[derive(Debug)]
pub enum DownloadResponse {
    /// The worker has started downloading a feed.
    Started(FeedId),
    /// The worker could not download the feed.
    Failed(FeedId),
    /// The worker finished downloading a feed.
    Finished {
        /// Which feed.
        feed: FeedId,
        /// The extracted posts, oldest first.
        posts: Vec<Post>,
    },
}

/// The mathematical shape of a response: the feed, the signal, and the
/// posts (empty unless the signal is `Finished`).
#[verifier::ext_equal]
pub ghost struct ResponseView {
    pub feed: FeedId,
    pub signal: Signal,
    pub posts: Seq<PostView>,
}

impl View for DownloadResponse {
    type V = ResponseView;

    open spec fn view(&self) -> ResponseView {
        match self {
            DownloadResponse::Started(feed) => ResponseView {
                feed: *feed,
                signal: Signal::Started,
                posts: Seq::<PostView>::empty(),
            },
            DownloadResponse::Failed(feed) => ResponseView {
                feed: *feed,
                signal: Signal::Failed,
                posts: Seq::<PostView>::empty(),
            },
            DownloadResponse::Finished { feed, posts } => ResponseView {
                feed: *feed,
                signal: Signal::Finished,
                posts: post_views(posts@),
            },
        }
    }
}

/// The response announcing a feed's fetch.
pub open spec fn started_view(feed: FeedId) -> ResponseView {
    ResponseView { feed: feed, signal: Signal::Started, posts: Seq::<PostView>::empty() }
}

/// The response concluding a feed's fetch: `Failed` when no document was
/// obtained, otherwise `Finished` with the posts the document yields —
/// an unrecognized document finishes with no posts rather than failing.
pub open spec fn concluded_view(feed: FeedId, body: Option<Seq<char>>, now: i64) -> ResponseView {
    match body {
        None => ResponseView { feed: feed, signal: Signal::Failed, posts: Seq::<PostView>::empty() },
        Some(b) => ResponseView {
            feed: feed,
            signal: Signal::Finished,
            posts: sort_batch(posts_of_entries(doc_entries(b), now)),
        },
    }
}

/// The responses one feed contributes to a worker's stream, in order.
pub open spec fn feed_stream(feed: FeedId, body: Option<Seq<char>>, now: i64) -> Seq<
    ResponseView,
> {
    seq![started_view(feed), concluded_view(feed, body, now)]
}

/// The full stream a worker emits for its assigned feeds, fetched
/// sequentially: each feed's two responses, feed after feed.
pub open spec fn worker_stream(
    feeds: Seq<FeedId>,
    bodies: Seq<Option<Seq<char>>>,
    now: i64,
) -> Seq<ResponseView>
    decreases feeds.len(),
{
    if feeds.len() == 0 {
        Seq::<ResponseView>::empty()
    } else {
        feed_stream(feeds[0], bodies[0], now) + worker_stream(
            feeds.drop_first(),
            bodies.drop_first(),
            now,
        )
    }
}

/// Build the response that announces a feed's fetch.
pub fn started_response(feed: FeedId) -> (r: DownloadResponse)
    ensures
        r@ == started_view(feed),
{
    DownloadResponse::Started(feed)
}

/// Build the response that concludes a feed's fetch from its transport
/// outcome: any failure to obtain a document collapses to `None` and
/// yields `Failed`; a document yields `Finished` with its extracted
/// posts, oldest first.
pub fn conclude_fetch(feed: FeedId, body: Option<String>, now: i64) -> (r: DownloadResponse)
    ensures
        r@ == concluded_view(feed, opt_view(body), now),
{
    match body {
        None => DownloadResponse::Failed(feed),
        Some(b) => {
            let posts = extract_posts(b.as_str(), now);
            DownloadResponse::Finished { feed, posts }
        },
    }
}

/// Build the fan-out plan of a download-all request: section by section,
/// each feed's URL at its own index.
pub fn url_map_of(cfg: &FeedConfig) -> (r: UrlMap)
    ensures
        r@.len() == cfg@.len(),
        forall|i: int|
            0 <= i < cfg@.len() ==> #[trigger] r@[i].len() == cfg@[i].feeds.len() && forall|
                j: int,
            | 0 <= j < cfg@[i].feeds.len() ==> r@[i][j] == cfg@[i].feeds[j].url,
{
    let mut map: Vec<Vec<String>> = Vec::new();
    let mut i: usize = 0;
    while i < cfg.sections.len()
        invariant
            i <= cfg.sections@.len(),
            cfg@.len() == cfg.sections@.len(),
            map@.len() == i,
            forall|a: int|
                0 <= a < i ==> {
                    let row = Seq::new(map@[a]@.len(), |j: int| map@[a]@[j]@);
                    #[trigger] map@[a]@.len() == cfg@[a].feeds.len() && forall|j: int|
                        0 <= j < cfg@[a].feeds.len() ==> row[j] == cfg@[a].feeds[j].url
                },
        decreases cfg.sections@.len() - i,
    {
        let section = &cfg.sections[i];
        let mut row: Vec<String> = Vec::new();
        let mut j: usize = 0;
        while j < section.feeds.len()
            invariant
                j <= section.feeds@.len(),
                row@.len() == j,
                forall|k: int| 0 <= k < j ==> #[trigger] row@[k]@ == section.feeds@[k]@.url,
            decreases section.feeds@.len() - j,
        {
            row.push(section.feeds[j].url.clone());
            proof {
                assert(row@[j as int]@ == section.feeds@[j as int]@.url);
            }
            j = j + 1;
        }
        map.push(row);
        proof {
            assert(map@[i as int]@.len() == cfg@[i as int].feeds.len());
            assert forall|k: int| 0 <= k < cfg@[i as int].feeds.len() implies Seq::new(
                map@[i as int]@.len(),
                |j2: int| map@[i as int]@[j2]@,
            )[k] == cfg@[i as int].feeds[k].url by {
                assert(map@[i as int]@[k]@ == section.feeds@[k]@.url);
            }
        }
        i = i + 1;
    }
    let r = UrlMap(map);
    proof {
        assert forall|a: int| 0 <= a < cfg@.len() implies #[trigger] r@[a].len()
            == cfg@[a].feeds.len() && forall|j: int|
            0 <= j < cfg@[a].feeds.len() ==> r@[a][j] == cfg@[a].feeds[j].url by {
            assert(r@[a] =~= Seq::new(map@[a]@.len(), |j: int| map@[a]@[j]@));
        }
    }
    r
}

/// The feeds currently queued or being downloaded: the membership query
/// behind the UI's busy indicator. A feed enters when its request is
/// dispatched or its `Started` response arrives, and leaves on its
/// terminal response, so the set stays accurate across the protocol.
#[derive(Debug)]
pub struct DownloadSet {
    inner: Vec<FeedId>,
}

impl View for DownloadSet {
    type V = Set<FeedId>;

    closed spec fn view(&self) -> Set<FeedId> {
        self.inner@.to_set()
    }
}

impl DownloadSet {
    /// An empty set: nothing is downloading.
    pub fn new() -> (r: DownloadSet)
        ensures
            r@ == Set::<FeedId>::empty(),
    {
        let r = DownloadSet { inner: Vec::new() };
        proof {
            assert(r@ =~= Set::<FeedId>::empty());
        }
        r
    }

    /// Whether `feed` is currently queued or downloading.
    pub fn contains(&self, feed: FeedId) -> (r: bool)
        ensures
            r == self@.contains(feed),
    {
        let mut i: usize = 0;
        while i < self.inner.len()
            invariant
                i <= self.inner@.len(),
                forall|j: int| 0 <= j < i ==> self.inner@[j] != feed,
            decreases self.inner@.len() - i,
        {
            if self.inner[i] == feed {
                proof {
                    assert(self.inner@.contains(feed));
                }
                return true;
            }
            i = i + 1;
        }
        proof {
            assert(!self.inner@.contains(feed));
        }
        false
    }

    /// Whether nothing is downloading at all.
    pub fn is_empty(&self) -> (r: bool)
        ensures
            r <==> self@ == Set::<FeedId>::empty(),
    {
        let r = self.inner.is_empty();
        proof {
            if self.inner@.len() == 0 {
                assert(self@ =~= Set::<FeedId>::empty());
            } else {
                assert(self.inner@.contains(self.inner@[0]));
                assert(self@.contains(self.inner@[0]));
            }
        }
        r
    }

    /// Mark `feed` as queued or downloading.
    pub fn mark(&mut self, feed: FeedId)
        ensures
            final(self)@ == old(self)@.insert(feed),
    {
        if !self.contains(feed) {
            let ghost pre = self.inner@;
            self.inner.push(feed);
            proof {
                assert forall|x: FeedId| self.inner@.contains(x) implies pre.contains(x) || x
                    == feed by {
                    let w = choose|k: int| 0 <= k < self.inner@.len() && self.inner@[k] == x;
                    if w < pre.len() {
                        assert(pre[w] == x);
                    }
                }
                assert forall|x: FeedId| pre.contains(x) implies self.inner@.contains(x) by {
                    let w = choose|k: int| 0 <= k < pre.len() && pre[k] == x;
                    assert(self.inner@[w] == x);
                }
                assert(self.inner@.contains(feed)) by {
                    assert(self.inner@.last() == feed);
                }
                assert(self@ =~= old(self)@.insert(feed));
            }
        } else {
            proof {
                assert(self@ =~= old(self)@.insert(feed));
            }
        }
    }

    /// Drop `feed` from the set.
    pub fn clear(&mut self, feed: FeedId)
        ensures
            final(self)@ == old(self)@.remove(feed),
    {
        let ghost pre = self.inner@;
        let mut kept: Vec<FeedId> = Vec::new();
        let mut i: usize = 0;
        while i < self.inner.len()
            invariant
                i <= self.inner@.len(),
                self.inner@ == pre,
                forall|j: int| 0 <= j < kept@.len() ==> #[trigger] kept@[j] != feed,
                forall|j: int|
                    0 <= j < kept@.len() ==> pre.contains(#[trigger] kept@[j]),
                forall|x: FeedId|
                    #[trigger] pre.take(i as int).contains(x) && x != feed ==> kept@.contains(x),
            decreases self.inner@.len() - i,
        {
            let v = self.inner[i];
            let ghost kept_pre = kept@;
            if !(v == feed) {
                kept.push(v);
            }
            proof {
                assert(pre.take(i + 1) =~= pre.take(i as int).push(pre[i as int]));
                assert forall|x: FeedId|
                    #[trigger] pre.take(i + 1).contains(x) && x != feed implies kept@.contains(
                    x,
                ) by {
                    let w = choose|k: int|
                        0 <= k < pre.take(i + 1).len() && #[trigger] pre.take(i + 1)[k] == x;
                    if w < i {
                        assert(pre.take(i as int)[w] == x);
                        assert(pre.take(i as int).contains(x));
                        assert(kept_pre.contains(x));
                        let u = choose|k: int|
                            0 <= k < kept_pre.len() && #[trigger] kept_pre[k] == x;
                        assert(kept@[u] == x);
                    } else {
                        assert(x == pre[i as int]);
                        assert(kept@ == kept_pre.push(x));
                        assert(kept@.last() == x);
                    }
                    assert(kept@.contains(x));
                }
            }
            i = i + 1;
        }
        self.inner = kept;
        proof {
            assert(pre.take(pre.len() as int) =~= pre);
            assert forall|x: FeedId| self@.contains(x) implies old(self)@.remove(feed).contains(
                x,
            ) by {
                assert(self.inner@.contains(x));
                let w = choose|k: int| 0 <= k < self.inner@.len() && self.inner@[k] == x;
                assert(pre.contains(x) && x != feed);
            }
            assert forall|x: FeedId| old(self)@.remove(feed).contains(x) implies self@.contains(
                x,
            ) by {
                assert(pre.contains(x) && x != feed);
                assert(pre.take(pre.len() as int).contains(x));
                assert(self.inner@.contains(x));
            }
            assert(self@ =~= old(self)@.remove(feed));
        }
    }

    /// Apply one response: a `Started` marks its feed, a terminal
    /// response clears it.
    pub fn apply(&mut self, response: &DownloadResponse)
        ensures
            final(self)@ == if response@.signal is Started {
                old(self)@.insert(response@.feed)
            } else {
                old(self)@.remove(response@.feed)
            },
    {
        match response {
            DownloadResponse::Started(feed) => self.mark(*feed),
            DownloadResponse::Failed(feed) => self.clear(*feed),
            DownloadResponse::Finished { feed, .. } => self.clear(*feed),
        }
    }
}

/// Law (failure isolation): with one worker per section, a section whose
/// single feed fails contributes exactly `Started` then `Failed` for that
/// feed and nothing more, while a section whose feed succeeds contributes
/// exactly `Started` then `Finished`; neither worker's stream mentions
/// the other's feed.
pub proof fn lemma_fetch_isolation(f1: FeedId, f2: FeedId, body2: Seq<char>, now: i64)
    requires
        f1 != f2,
    ensures
        worker_stream(seq![f1], seq![Option::<Seq<char>>::None], now) =~= seq![
            started_view(f1),
            concluded_view(f1, None, now),
        ],
        worker_stream(seq![f2], seq![Some(body2)], now) =~= seq![
            started_view(f2),
            concluded_view(f2, Some(body2), now),
        ],
        concluded_view(f1, None, now).signal == Signal::Failed,
        concluded_view(f2, Some(body2), now).signal == Signal::Finished,
        forall|i: int|
            0 <= i < 2 ==> #[trigger] worker_stream(
                seq![f1],
                seq![Option::<Seq<char>>::None],
                now,
            )[i].feed == f1 && worker_stream(seq![f1], seq![Option::<Seq<char>>::None], now)[i].feed
                != f2,
        forall|i: int|
            0 <= i < 2 ==> #[trigger] worker_stream(seq![f2], seq![Some(body2)], now)[i].feed == f2
                && worker_stream(seq![f2], seq![Some(body2)], now)[i].feed != f1,
{
    reveal_with_fuel(worker_stream, 3);
    let s1 = worker_stream(seq![f1], seq![Option::<Seq<char>>::None], now);
    let s2 = worker_stream(seq![f2], seq![Some(body2)], now);
    assert(seq![f1].drop_first() =~= Seq::<FeedId>::empty());
    assert(seq![Option::<Seq<char>>::None].drop_first() =~= Seq::<Option<Seq<char>>>::empty());
    assert(seq![f2].drop_first() =~= Seq::<FeedId>::empty());
    assert(seq![Some(body2)].drop_first() =~= Seq::<Option<Seq<char>>>::empty());
    assert(s1 =~= feed_stream(f1, None, now) + Seq::<ResponseView>::empty());
    assert(s2 =~= feed_stream(f2, Some(body2), now) + Seq::<ResponseView>::empty());
    assert(s1 =~= seq![started_view(f1), concluded_view(f1, None, now)]);
    assert(s2 =~= seq![started_view(f2), concluded_view(f2, Some(body2), now)]);
}

} // verus!
