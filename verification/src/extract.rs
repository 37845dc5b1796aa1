//! The feed extractor: pure derivation of posts from a fetched document.
//! The document is parsed as Atom, then as RSS; a document that is neither
//! yields no posts. Each entry gets a stable identifier (native when
//! present and non-empty, otherwise a hash of its time and title), a title
//! with fallbacks, a publication time with fallbacks, and the distinct
//! URLs found in its link fields and text, in discovery order.

use std::str::FromStr;
use vstd::prelude::*;

verus! {

use vstd::utf8::encode_utf8;
use vstd::string::StringSliceAdditionalSpecFns;
use vstd::string::StringExecFns;
use crate::post::{Post, PostId, PostView};
use crate::text::{decimal, signed_decimal, truncate_chars, i64_to_string};

/// The fields of one feed entry that the extractor reads, as plain
/// values: Atom and RSS entries are both reduced to this shape.
#[derive(Debug)]
pub struct RawEntry {
    /// The native identifier: Atom's id, RSS's guid value.
    pub id: Option<String>,
    /// The native title.
    pub title: Option<String>,
    /// The synopsis text (RSS); scanned for links and a title fallback.
    pub description: Option<String>,
    /// The content text; scanned for links.
    pub content: Option<String>,
    /// The summary text (Atom); scanned for links.
    pub summary: Option<String>,
    /// The link fields, in document order.
    pub links: Vec<String>,
    /// The update time as epoch seconds, when the format carries one.
    pub published: Option<i64>,
    /// The publication date as RFC 2822 text (RSS).
    pub pub_date: Option<String>,
}

/// The mathematical shape of a raw entry.
#[verifier::ext_equal]
pub ghost struct RawEntryView {
    pub id: Option<Seq<char>>,
    pub title: Option<Seq<char>>,
    pub description: Option<Seq<char>>,
    pub content: Option<Seq<char>>,
    pub summary: Option<Seq<char>>,
    pub links: Seq<Seq<char>>,
    pub published: Option<i64>,
    pub pub_date: Option<Seq<char>>,
}

/// The view of an optional string.
pub open spec fn opt_view(o: Option<String>) -> Option<Seq<char>> {
    match o {
        Some(s) => Some(s@),
        None => None,
    }
}

impl View for RawEntry {
    type V = RawEntryView;

    open spec fn view(&self) -> RawEntryView {
        RawEntryView {
            id: opt_view(self.id),
            title: opt_view(self.title),
            description: opt_view(self.description),
            content: opt_view(self.content),
            summary: opt_view(self.summary),
            links: Seq::new(self.links@.len(), |i: int| self.links@[i]@),
            published: self.published,
            pub_date: opt_view(self.pub_date),
        }
    }
}

/// What the Atom parser yields for a document: `None` when the text is
/// not well-formed Atom, otherwise each entry reduced to the fields the
/// extractor reads. The result depends on the text alone.
pub uninterp spec fn atom_entries_of(s: Seq<char>) -> Option<Seq<RawEntryView>>;

/// What the RSS parser yields for a document, reduced the same way. The
/// result depends on the text alone.
pub uninterp spec fn rss_items_of(s: Seq<char>) -> Option<Seq<RawEntryView>>;

/// The URLs the link detector finds in a text, in order. The result
/// depends on the text alone.
pub uninterp spec fn links_of(s: Seq<char>) -> Seq<Seq<char>>;

/// The normalized text of a string that parses as an absolute URL,
/// `None` for anything else. The result depends on the text alone.
pub uninterp spec fn url_norm(s: Seq<char>) -> Option<Seq<char>>;

/// The epoch seconds an RFC 2822 date denotes, `None` when it does not
/// parse. The result depends on the text alone.
pub uninterp spec fn rfc2822_ts(s: Seq<char>) -> Option<i64>;

/// Relies on `atom_syndication::Feed::from_str`: parses an Atom document
/// and keeps, per entry, its id, title, texts, link targets, and update
/// time as epoch seconds.
#[verifier::external_body]
fn parse_atom(body: &str) -> (r: Option<Vec<RawEntry>>)
    ensures
        match r {
            Some(v) => atom_entries_of(body@) == Some(Seq::new(v@.len(), |i: int| v@[i]@)),
            None => atom_entries_of(body@) is None,
        },
{
    let feed = atom_syndication::Feed::from_str(body).ok()?;
    Some(
        feed.entries.into_iter().map(
            |e| RawEntry {
                id: Some(e.id),
                title: Some(e.title.value),
                description: None,
                content: e.content.and_then(|c| c.value),
                summary: e.summary.map(|t| t.value),
                links: e.links.into_iter().map(|l| l.href).collect(),
                published: Some(e.updated.timestamp()),
                pub_date: None,
            },
        ).collect(),
    )
}

/// Relies on `rss::Channel::from_str`: parses an RSS document and keeps,
/// per item, its guid, title, texts, link, and publication date text.
#[verifier::external_body]
fn parse_rss(body: &str) -> (r: Option<Vec<RawEntry>>)
    ensures
        match r {
            Some(v) => rss_items_of(body@) == Some(Seq::new(v@.len(), |i: int| v@[i]@)),
            None => rss_items_of(body@) is None,
        },
{
    let channel = rss::Channel::from_str(body).ok()?;
    Some(
        channel.items.into_iter().map(
            |it| RawEntry {
                id: it.guid.map(|g| g.value),
                title: it.title,
                description: it.description,
                content: it.content,
                summary: None,
                links: it.link.into_iter().collect(),
                published: None,
                pub_date: it.pub_date,
            },
        ).collect(),
    )
}

/// Relies on `linkify::LinkFinder`: detects the URLs in a text.
#[verifier::external_body]
fn find_links(s: &str) -> (r: Vec<String>)
    ensures
        links_of(s@) == Seq::new(r@.len(), |i: int| r@[i]@),
{
    let mut finder = linkify::LinkFinder::new();
    finder.kinds(&[linkify::LinkKind::Url]);
    finder.links(s).map(|l| l.as_str().to_string()).collect()
}

/// Relies on `url::Url::parse`: accepts exactly the absolute URLs and
/// yields the normalized text.
#[verifier::external_body]
pub(crate) fn parse_url(s: &str) -> (r: Option<String>)
    ensures
        match r {
            Some(u) => url_norm(s@) == Some(u@),
            None => url_norm(s@) is None,
        },
{
    url::Url::parse(s).ok().map(|u| String::from(u))
}

/// Relies on `chrono::DateTime::parse_from_rfc2822`: the epoch seconds an
/// RFC 2822 date denotes.
#[verifier::external_body]
fn parse_rfc2822(s: &str) -> (r: Option<i64>)
    ensures
        r == rfc2822_ts(s@),
{
    chrono::DateTime::parse_from_rfc2822(s).ok().map(|d| d.timestamp())
}

/// The views of a vector of strings.
pub open spec fn str_views(v: Seq<String>) -> Seq<Seq<char>> {
    Seq::new(v.len(), |i: int| v[i]@)
}

/// The views of a vector of posts.
pub open spec fn post_views(v: Seq<Post>) -> Seq<PostView> {
    Seq::new(v.len(), |i: int| v[i]@)
}

/// The URL list after considering candidate `s`: appended when it parses
/// as a URL that is not yet present, by exact text equality.
pub open spec fn push_url_spec(acc: Seq<Seq<char>>, s: Seq<char>) -> Seq<Seq<char>> {
    match url_norm(s) {
        Some(u) => if acc.contains(u) {
            acc
        } else {
            acc.push(u)
        },
        None => acc,
    }
}

/// The URL list after considering every candidate of `ss`, in order.
pub open spec fn push_urls_spec(acc: Seq<Seq<char>>, ss: Seq<Seq<char>>) -> Seq<Seq<char>>
    decreases ss.len(),
{
    if ss.len() == 0 {
        acc
    } else {
        push_urls_spec(push_url_spec(acc, ss[0]), ss.drop_first())
    }
}

/// All URLs of an entry: its link fields first, then the links detected
/// in its description, content and summary, first occurrence kept.
pub open spec fn entry_urls(e: RawEntryView) -> Seq<Seq<char>> {
    let a0 = push_urls_spec(Seq::<Seq<char>>::empty(), e.links);
    let a1 = match e.description {
        Some(d) => push_urls_spec(a0, links_of(d)),
        None => a0,
    };
    let a2 = match e.content {
        Some(c) => push_urls_spec(a1, links_of(c)),
        None => a1,
    };
    match e.summary {
        Some(s) => push_urls_spec(a2, links_of(s)),
        None => a2,
    }
}

/// An entry's publication time: its own, else its parsed date text, else
/// the current time, so that extraction never fails on a missing date.
pub open spec fn entry_published(e: RawEntryView, now: i64) -> i64 {
    match e.published {
        Some(t) => t,
        None => match e.pub_date {
            Some(d) => match rfc2822_ts(d) {
                Some(t) => t,
                None => now,
            },
            None => now,
        },
    }
}

/// An entry's title: its own, else the first twenty characters of its
/// description, else the word "Untitled".
pub open spec fn entry_title(e: RawEntryView) -> Seq<char> {
    match e.title {
        Some(t) => t,
        None => match e.description {
            Some(d) => d.take(
                if 20 <= d.len() {
                    20int
                } else {
                    d.len() as int
                },
            ),
            None => "Untitled"@,
        },
    }
}

/// The synthesized identifier of an entry without a usable native one:
/// the decimal FNV-1a hash of its time and title, stable across runs.
pub open spec fn synth_id(published: i64, title: Seq<char>) -> Seq<char> {
    decimal(
        crate::fnv1a(encode_utf8(signed_decimal(published as int) + seq![' '] + title)) as nat,
    )
}

/// An entry's identifier: the native one when present and non-empty,
/// otherwise the synthesized hash of its time and title.
pub open spec fn entry_id(e: RawEntryView, published: i64, title: Seq<char>) -> Seq<char> {
    match e.id {
        Some(id) => if id.len() > 0 {
            id
        } else {
            synth_id(published, title)
        },
        None => synth_id(published, title),
    }
}

/// The post derived from one entry; extracted posts start unread.
pub open spec fn post_of_entry(e: RawEntryView, now: i64) -> PostView {
    let title = entry_title(e);
    let published = entry_published(e, now);
    PostView {
        id: entry_id(e, published, title),
        title: title,
        urls: entry_urls(e),
        published: published,
        read: false,
    }
}

/// The posts derived from a parsed document's entries, in document order.
pub open spec fn posts_of_entries(es: Seq<RawEntryView>, now: i64) -> Seq<PostView> {
    Seq::new(es.len(), |i: int| post_of_entry(es[i], now))
}

/// The entries a document yields: Atom when it parses as Atom, else RSS,
/// else nothing — an unrecognized document is empty, not an error.
pub open spec fn doc_entries(body: Seq<char>) -> Seq<RawEntryView> {
    match atom_entries_of(body) {
        Some(es) => es,
        None => match rss_items_of(body) {
            Some(es) => es,
            None => Seq::<RawEntryView>::empty(),
        },
    }
}

/// Oldest first: publication times never decrease along the sequence.
pub open spec fn sorted_asc(s: Seq<PostView>) -> bool {
    forall|i: int, j: int| 0 <= i <= j < s.len() ==> s[i].published <= s[j].published
}

/// Where a post enters an ascending batch: after every post published no
/// later than it.
pub open spec fn asc_index(s: Seq<PostView>, published: i64) -> int
    decreases s.len(),
{
    if s.len() == 0 {
        0
    } else if s[0].published <= published {
        1 + asc_index(s.drop_first(), published)
    } else {
        0
    }
}

/// One step of the batch sort: the post enters at its ascending position.
pub open spec fn insert_asc(s: Seq<PostView>, p: PostView) -> Seq<PostView> {
    s.insert(asc_index(s, p.published), p)
}

/// The batch sorted ascending by publication time: each post inserted at
/// its position, in order, so posts with equal times keep document order.
pub open spec fn sort_batch(t: Seq<PostView>) -> Seq<PostView>
    decreases t.len(),
{
    if t.len() == 0 {
        Seq::<PostView>::empty()
    } else {
        insert_asc(sort_batch(t.drop_last()), t.last())
    }
}

proof fn lemma_asc_index_props(s: Seq<PostView>, published: i64)
    requires
        sorted_asc(s),
    ensures
        0 <= asc_index(s, published) <= s.len(),
        forall|j: int| 0 <= j < asc_index(s, published) ==> s[j].published <= published,
        forall|j: int| asc_index(s, published) <= j < s.len() ==> s[j].published > published,
    decreases s.len(),
{
    if s.len() == 0 {
    } else if s[0].published <= published {
        assert forall|a: int, b: int|
            0 <= a <= b < s.drop_first().len() implies s.drop_first()[a].published
            <= s.drop_first()[b].published by {
            assert(s.drop_first()[a] == s[a + 1]);
            assert(s.drop_first()[b] == s[b + 1]);
        }
        lemma_asc_index_props(s.drop_first(), published);
        let ii = asc_index(s, published);
        assert forall|j: int| 0 <= j < ii implies s[j].published <= published by {
            if j > 0 {
                assert(s.drop_first()[j - 1] == s[j]);
            }
        }
        assert forall|j: int| ii <= j < s.len() implies s[j].published > published by {
            assert(s.drop_first()[j - 1] == s[j]);
        }
    } else {
        assert forall|j: int| 0 <= j < s.len() implies s[j].published > published by {
            assert(s[0].published <= s[j].published);
        }
    }
}

/// Law: inserting a post at its ascending position keeps a batch sorted
/// oldest first.
pub proof fn lemma_insert_asc_sorted(s: Seq<PostView>, p: PostView)
    requires
        sorted_asc(s),
    ensures
        sorted_asc(insert_asc(s, p)),
        insert_asc(s, p).len() == s.len() + 1,
{
    lemma_asc_index_props(s, p.published);
    let ii = asc_index(s, p.published);
    let t = s.insert(ii, p);
    s.insert_ensures(ii, p);
    assert forall|a: int, b: int| 0 <= a <= b < t.len() implies t[a].published
        <= t[b].published by {
        if a < ii && b < ii {
        } else if a < ii && b == ii {
        } else if a < ii && b > ii {
            assert(t[b] == s[b - 1]);
        } else if a == ii && b > ii {
            assert(t[b] == s[b - 1]);
        } else if a > ii && b > ii {
            assert(t[a] == s[a - 1]);
            assert(t[b] == s[b - 1]);
        }
    }
}

/// Law: the sorted batch is sorted oldest first and has the batch's
/// length.
pub proof fn lemma_sort_batch_sorted(t: Seq<PostView>)
    ensures
        sorted_asc(sort_batch(t)),
        sort_batch(t).len() == t.len(),
    decreases t.len(),
{
    if t.len() > 0 {
        lemma_sort_batch_sorted(t.drop_last());
        lemma_insert_asc_sorted(sort_batch(t.drop_last()), t.last());
    }
}

/// Whether some string of `v` has exactly the text `s`.
fn contains_string(v: &Vec<String>, s: &String) -> (r: bool)
    ensures
        r == str_views(v@).contains(s@),
{
    let mut i: usize = 0;
    while i < v.len()
        invariant
            i <= v@.len(),
            forall|j: int| 0 <= j < i ==> str_views(v@)[j] != s@,
        decreases v@.len() - i,
    {
        if v[i].eq(s) {
            proof {
                assert(str_views(v@)[i as int] == s@);
            }
            return true;
        }
        proof {
            assert(str_views(v@)[i as int] != s@);
        }
        i = i + 1;
    }
    false
}

/// Parse a URL from `s` and append it to `acc` when it is new.
fn push_url(acc: &mut Vec<String>, s: &str)
    ensures
        str_views(final(acc)@) == push_url_spec(str_views(old(acc)@), s@),
{
    match parse_url(s) {
        Some(u) => {
            if !contains_string(acc, &u) {
                acc.push(u);
                proof {
                    assert(str_views(acc@) =~= str_views(old(acc)@).push(acc@.last()@));
                }
            } else {
                proof {
                    assert(str_views(acc@) =~= push_url_spec(str_views(old(acc)@), s@));
                }
            }
        },
        None => {
            proof {
                assert(str_views(acc@) =~= push_url_spec(str_views(old(acc)@), s@));
            }
        },
    }
}

/// Considering one more candidate extends the folded URL list by that
/// candidate's step.
proof fn lemma_push_urls_push(acc: Seq<Seq<char>>, ss: Seq<Seq<char>>, x: Seq<char>)
    ensures
        push_urls_spec(acc, ss.push(x)) == push_url_spec(push_urls_spec(acc, ss), x),
    decreases ss.len(),
{
    if ss.len() == 0 {
        reveal_with_fuel(push_urls_spec, 3);
        assert(ss.push(x)[0] == x);
        assert(ss.push(x).drop_first() =~= Seq::<Seq<char>>::empty());
    } else {
        assert(ss.push(x)[0] == ss[0]);
        assert(ss.push(x).drop_first() =~= ss.drop_first().push(x));
        lemma_push_urls_push(push_url_spec(acc, ss[0]), ss.drop_first(), x);
    }
}

/// Detect the links in `s` and push each into `acc`.
fn scan_text(acc: &mut Vec<String>, s: &str)
    ensures
        str_views(final(acc)@) == push_urls_spec(str_views(old(acc)@), links_of(s@)),
{
    let links = find_links(s);
    let mut i: usize = 0;
    proof {
        assert(links_of(s@).take(0) =~= Seq::<Seq<char>>::empty());
    }
    while i < links.len()
        invariant
            i <= links@.len(),
            links_of(s@) == Seq::new(links@.len(), |j: int| links@[j]@),
            str_views(acc@) == push_urls_spec(str_views(old(acc)@), links_of(s@).take(i as int)),
        decreases links@.len() - i,
    {
        push_url(acc, links[i].as_str());
        proof {
            lemma_push_urls_push(str_views(old(acc)@), links_of(s@).take(i as int), links@[i as int]@);
            assert(links_of(s@).take(i + 1) =~= links_of(s@).take(i as int).push(
                links@[i as int]@,
            ));
        }
        i = i + 1;
    }
    proof {
        assert(links_of(s@).take(links_of(s@).len() as int) =~= links_of(s@));
    }
}

/// The synthesized identifier: the decimal FNV-1a hash of the time and
/// title joined by one space.
fn synth_id_exec(published: i64, title: &String) -> (r: String)
    ensures
        r@ == synth_id(published, title@),
{
    let mut input = i64_to_string(published);
    input.append(" ");
    input.append(title.as_str());
    proof {
        reveal_strlit(" ");
        assert(" "@ =~= seq![' ']);
        assert(input@ =~= signed_decimal(published as int) + seq![' '] + title@);
    }
    crate::hash(input.as_str())
}

/// Derive the post of one entry.
fn post_from_entry(e: &RawEntry, now: i64) -> (r: Post)
    ensures
        r@ == post_of_entry(e@, now),
{
    let title: String = match &e.title {
        Some(t) => t.clone(),
        None => match &e.description {
            Some(d) => truncate_chars(d.as_str(), 20),
            None => <String as StringExecFns>::from_str("Untitled"),
        },
    };
    let published: i64 = match &e.published {
        Some(t) => *t,
        None => match &e.pub_date {
            Some(d) => match parse_rfc2822(d.as_str()) {
                Some(t) => t,
                None => now,
            },
            None => now,
        },
    };
    let id: String = match &e.id {
        Some(s) => {
            if s.as_str().is_empty() {
                synth_id_exec(published, &title)
            } else {
                s.clone()
            }
        },
        None => synth_id_exec(published, &title),
    };
    let mut urls: Vec<String> = Vec::new();
    let mut i: usize = 0;
    proof {
        assert(str_views(urls@) =~= Seq::<Seq<char>>::empty());
        assert(e@.links.take(0) =~= Seq::<Seq<char>>::empty());
    }
    while i < e.links.len()
        invariant
            i <= e.links@.len(),
            e@.links == Seq::new(e.links@.len(), |j: int| e.links@[j]@),
            str_views(urls@) == push_urls_spec(Seq::<Seq<char>>::empty(), e@.links.take(i as int)),
        decreases e.links@.len() - i,
    {
        push_url(&mut urls, e.links[i].as_str());
        proof {
            lemma_push_urls_push(
                Seq::<Seq<char>>::empty(),
                e@.links.take(i as int),
                e.links@[i as int]@,
            );
            assert(e@.links.take(i + 1) =~= e@.links.take(i as int).push(e.links@[i as int]@));
        }
        i = i + 1;
    }
    proof {
        assert(e@.links.take(e@.links.len() as int) =~= e@.links);
    }
    match &e.description {
        Some(d) => scan_text(&mut urls, d.as_str()),
        None => {},
    }
    match &e.content {
        Some(c) => scan_text(&mut urls, c.as_str()),
        None => {},
    }
    match &e.summary {
        Some(s) => scan_text(&mut urls, s.as_str()),
        None => {},
    }
    let r = Post { id: PostId(id), title, urls, published, read: false };
    proof {
        assert(r@.urls =~= entry_urls(e@));
        assert(r@ =~= post_of_entry(e@, now));
    }
    r
}

/// Insert each post of the batch at its ascending position.
fn sort_posts(v: Vec<Post>) -> (r: Vec<Post>)
    ensures
        post_views(r@) == sort_batch(post_views(v@)),
{
    let mut src = v;
    let mut out: Vec<Post> = Vec::new();
    proof {
        assert(post_views(out@) =~= Seq::<PostView>::empty());
        assert(sort_batch(post_views(src@).take(0)) =~= Seq::<PostView>::empty());
    }
    let ghost all = post_views(src@);
    let mut done: usize = 0;
    while done < src.len()
        invariant
            done <= src@.len(),
            all == post_views(src@),
            post_views(out@) == sort_batch(all.take(done as int)),
        decreases src@.len() - done,
    {
        let p = src[done].clone();
        let published = p.published;
        let mut idx: usize = 0;
        while idx < out.len() && out[idx].published <= published
            invariant
                idx <= out@.len(),
                forall|j: int| 0 <= j < idx ==> post_views(out@)[j].published <= published,
            decreases out@.len() - idx,
        {
            idx = idx + 1;
        }
        proof {
            let ov = post_views(out@);
            assert(idx as int == asc_index(ov, published)) by {
                lemma_sort_batch_sorted(all.take(done as int));
                lemma_asc_index_props(ov, published);
                let ii = asc_index(ov, published);
                assert(!(idx < ii)) by {
                    if (idx as int) < ii {
                        assert(ov[idx as int].published <= published);
                        assert(idx < out@.len());
                        assert(ov[idx as int].published > published);
                    }
                }
                assert(!(ii < idx)) by {
                    if ii < idx as int {
                        assert(ov[ii].published > published);
                        assert(ov[ii].published <= published);
                    }
                }
            }
        }
        let ghost before = post_views(out@);
        out.insert(idx, p);
        proof {
            assert(post_views(out@) =~= before.insert(idx as int, all[done as int])) by {
                assert(src@[done as int]@ == all[done as int]);
            }
            assert(all.take(done + 1) =~= all.take(done as int).push(all[done as int]));
            assert(all.take(done + 1).drop_last() =~= all.take(done as int));
            assert(all.take(done + 1).last() == all[done as int]);
            assert(post_views(out@) =~= sort_batch(all.take(done + 1)));
        }
        done = done + 1;
    }
    proof {
        assert(all.take(all.len() as int) =~= all);
    }
    out
}

/// Turn a fetched document into posts: parse as Atom, else RSS, else
/// nothing; derive each entry's post; hand the batch over sorted oldest
/// first. All extracted posts are unread.
pub fn extract_posts(body: &str, now: i64) -> (r: Vec<Post>)
    ensures
        post_views(r@) == sort_batch(posts_of_entries(doc_entries(body@), now)),
        sorted_asc(post_views(r@)),
{
    let entries: Vec<RawEntry> = match parse_atom(body) {
        Some(v) => v,
        None => match parse_rss(body) {
            Some(v) => v,
            None => Vec::new(),
        },
    };
    let ghost es = doc_entries(body@);
    proof {
        assert(es == Seq::new(entries@.len(), |i: int| entries@[i]@));
    }
    let mut posts: Vec<Post> = Vec::new();
    let mut i: usize = 0;
    while i < entries.len()
        invariant
            i <= entries@.len(),
            es == Seq::new(entries@.len(), |j: int| entries@[j]@),
            posts@.len() == i,
            forall|j: int| 0 <= j < i ==> post_views(posts@)[j] == post_of_entry(es[j], now),
        decreases entries@.len() - i,
    {
        let p = post_from_entry(&entries[i], now);
        let ghost pv_pre = posts@;
        posts.push(p);
        proof {
            assert(es[i as int] == entries@[i as int]@);
            assert forall|j: int| 0 <= j < i + 1 implies post_views(posts@)[j] == post_of_entry(
                es[j],
                now,
            ) by {
                if j < i {
                    assert(post_views(pv_pre)[j] == post_of_entry(es[j], now));
                    assert(posts@[j] == pv_pre[j]);
                } else {
                    assert(posts@[j] == p);
                }
                assert(post_views(posts@)[j] == posts@[j]@);
            }
        }
        i = i + 1;
    }
    proof {
        assert(post_views(posts@) =~= posts_of_entries(es, now));
    }
    let r = sort_posts(posts);
    proof {
        lemma_sort_batch_sorted(posts_of_entries(es, now));
    }
    r
}

} // verus!
