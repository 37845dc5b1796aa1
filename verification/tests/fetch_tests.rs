use nia::config::FeedConfig;
use nia::fetch::{
    conclude_fetch, started_response, url_map_of, DownloadResponse, DownloadSet, FeedId,
};

const RSS_DOC: &str = r#"<?xml version="1.0" encoding="UTF-8" ?>
<rss version="2.0">
<channel>
  <title>c</title><link>https://e.com/</link><description>d</description>
  <item><title>one</title><guid>g1</guid>
    <pubDate>Wed, 01 Jan 2020 00:00:00 GMT</pubDate>
    <link>https://e.com/one</link></item>
</channel>
</rss>"#;

#[test]
fn failed_fetch_concludes_failed() {
    let feed = FeedId { section_idx: 0, feed_idx: 0 };
    let r = conclude_fetch(feed, None, 5);
    assert!(matches!(r, DownloadResponse::Failed(f) if f == feed));
}

#[test]
fn fetched_document_concludes_finished() {
    let feed = FeedId { section_idx: 1, feed_idx: 2 };
    let r = conclude_fetch(feed, Some(String::from(RSS_DOC)), 5);
    match r {
        DownloadResponse::Finished { feed: f, posts } => {
            assert_eq!(f, feed);
            assert_eq!(posts.len(), 1);
            assert_eq!(posts[0].id.0, "g1");
        },
        _ => panic!("expected a finished response"),
    }
}

#[test]
fn unparseable_document_still_finishes() {
    let feed = FeedId { section_idx: 0, feed_idx: 1 };
    let r = conclude_fetch(feed, Some(String::from("junk")), 5);
    match r {
        DownloadResponse::Finished { posts, .. } => assert_eq!(posts.len(), 0),
        _ => panic!("an obtained but unrecognized body must finish, not fail"),
    }
}

#[test]
fn per_feed_streams_stay_isolated() {
    // Section 1's single feed fails while section 2's succeeds: each
    // worker's stream carries Started then its own terminal response, and
    // never the other worker's feed.
    let f1 = FeedId { section_idx: 0, feed_idx: 0 };
    let f2 = FeedId { section_idx: 1, feed_idx: 0 };

    let stream1 = vec![started_response(f1), conclude_fetch(f1, None, 9)];
    let stream2 = vec![started_response(f2), conclude_fetch(f2, Some(String::from(RSS_DOC)), 9)];

    assert!(matches!(stream1[0], DownloadResponse::Started(f) if f == f1));
    assert!(matches!(stream1[1], DownloadResponse::Failed(f) if f == f1));
    assert_eq!(stream1.len(), 2);

    assert!(matches!(stream2[0], DownloadResponse::Started(f) if f == f2));
    assert!(matches!(stream2[1], DownloadResponse::Finished { feed, .. } if feed == f2));

    for r in stream1.iter() {
        let feed_of = match r {
            DownloadResponse::Started(f) => *f,
            DownloadResponse::Failed(f) => *f,
            DownloadResponse::Finished { feed, .. } => *feed,
        };
        assert_eq!(feed_of, f1);
        assert_ne!(feed_of, f2);
    }
}

#[test]
fn download_set_tracks_the_protocol() {
    let f1 = FeedId { section_idx: 0, feed_idx: 0 };
    let f2 = FeedId { section_idx: 0, feed_idx: 1 };
    let mut set = DownloadSet::new();
    assert!(set.is_empty());
    assert!(!set.contains(f1));

    set.mark(f1);
    assert!(set.contains(f1));
    assert!(!set.contains(f2));
    set.mark(f1);
    assert!(set.contains(f1));

    set.apply(&started_response(f2));
    assert!(set.contains(f2));
    assert!(!set.is_empty());

    set.apply(&conclude_fetch(f1, None, 0));
    assert!(!set.contains(f1));
    assert!(set.contains(f2));

    set.apply(&conclude_fetch(f2, Some(String::from("junk")), 0));
    assert!(!set.contains(f2));
    assert!(set.is_empty());
}

#[test]
fn url_map_mirrors_the_config() {
    let cfg = FeedConfig::parse_config(
        "# A\none | https://a.example/1\ntwo | https://a.example/2\n# B\nthree | https://b.example/3\n",
    )
    .unwrap();
    let map = url_map_of(&cfg);
    assert_eq!(map.0.len(), 2);
    assert_eq!(map.0[0], vec![
        String::from("https://a.example/1"),
        String::from("https://a.example/2"),
    ]);
    assert_eq!(map.0[1], vec![String::from("https://b.example/3")]);
}
