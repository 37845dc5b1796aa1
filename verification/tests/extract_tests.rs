use nia::extract::extract_posts;
use nia::hash;
use nia::text::{i64_to_string, truncate_chars, u64_to_string};

const ATOM_DOC: &str = r#"<?xml version="1.0" encoding="utf-8"?>
<feed xmlns="http://www.w3.org/2005/Atom">
  <title>Example Feed</title>
  <id>urn:example:feed</id>
  <updated>2020-01-02T00:00:00Z</updated>
  <entry>
    <title>Older</title>
    <id>urn:example:older</id>
    <updated>2020-01-01T00:00:00Z</updated>
    <link href="https://example.com/older"/>
    <summary>see https://example.com/extra for more</summary>
  </entry>
  <entry>
    <title>Newer</title>
    <id>urn:example:newer</id>
    <updated>2020-01-02T00:00:00Z</updated>
    <link href="https://example.com/newer"/>
  </entry>
</feed>"#;

const RSS_DOC: &str = r#"<?xml version="1.0" encoding="UTF-8" ?>
<rss version="2.0">
<channel>
  <title>Example Channel</title>
  <link>https://example.com/</link>
  <description>news</description>
  <item>
    <title>First</title>
    <link>https://example.com/first</link>
    <guid>guid-first</guid>
    <pubDate>Wed, 01 Jan 2020 00:00:00 GMT</pubDate>
    <description>read https://example.com/more and https://example.com/first today</description>
  </item>
  <item>
    <description>a rather long description that should be truncated for the title</description>
    <pubDate>Thu, 02 Jan 2020 00:00:00 GMT</pubDate>
    <link>https://example.com/second</link>
  </item>
</channel>
</rss>"#;

#[test]
fn atom_documents_yield_posts_oldest_first() {
    let posts = extract_posts(ATOM_DOC, 0);
    assert_eq!(posts.len(), 2);
    assert_eq!(posts[0].title, "Older");
    assert_eq!(posts[1].title, "Newer");
    assert_eq!(posts[0].id.0, "urn:example:older");
    // 2020-01-01T00:00:00Z and 2020-01-02T00:00:00Z as epoch seconds
    assert_eq!(posts[0].published, 1577836800);
    assert_eq!(posts[1].published, 1577923200);
    assert!(posts.iter().all(|p| !p.read));
    // link field first, then the URL detected in the summary text
    assert_eq!(posts[0].urls.len(), 2);
    assert_eq!(posts[0].urls[0], "https://example.com/older");
    assert_eq!(posts[0].urls[1], "https://example.com/extra");
}

#[test]
fn rss_documents_yield_posts_with_fallbacks() {
    let posts = extract_posts(RSS_DOC, 0);
    assert_eq!(posts.len(), 2);
    // item order by pubDate ascending
    assert_eq!(posts[0].id.0, "guid-first");
    assert_eq!(posts[0].title, "First");
    assert_eq!(posts[0].published, 1577836800);
    // duplicate URL in description is suppressed
    assert_eq!(posts[0].urls, vec![
        String::from("https://example.com/first"),
        String::from("https://example.com/more"),
    ]);
    // second item: no title -> first twenty characters of the description
    assert_eq!(posts[1].title, "a rather long descri");
    assert_eq!(posts[1].title.chars().count(), 20);
    // no guid -> synthesized identifier, stable across extractions
    let again = extract_posts(RSS_DOC, 0);
    assert_eq!(posts[1].id, again[1].id);
    assert_eq!(posts[1].id.0, hash(&format!("{} {}", 1577923200i64, posts[1].title)));
}

#[test]
fn unrecognized_documents_yield_nothing() {
    assert_eq!(extract_posts("", 42).len(), 0);
    assert_eq!(extract_posts("not xml at all", 42).len(), 0);
    assert_eq!(extract_posts("<html><body>hi</body></html>", 42).len(), 0);
}

#[test]
fn missing_dates_fall_back_to_now() {
    let doc = r#"<?xml version="1.0" encoding="UTF-8" ?>
<rss version="2.0">
<channel><title>t</title><link>https://e.com/</link><description>d</description>
  <item><title>undated</title><guid>g1</guid></item>
</channel>
</rss>"#;
    let posts = extract_posts(doc, 777);
    assert_eq!(posts.len(), 1);
    assert_eq!(posts[0].published, 777);
}

#[test]
fn hash_is_the_decimal_fnv1a() {
    // the FNV-1a offset basis, for empty input
    assert_eq!(hash(""), "14695981039346656037");
    // xoring and multiplying one byte in
    assert_eq!(hash("a"), "12638187200555641996");
    assert_eq!(hash("abc"), hash("abc"));
    assert_ne!(hash("abc"), hash("abd"));
}

#[test]
fn decimal_renderings() {
    assert_eq!(u64_to_string(0), "0");
    assert_eq!(u64_to_string(907), "907");
    assert_eq!(u64_to_string(u64::MAX), "18446744073709551615");
    assert_eq!(i64_to_string(-45), "-45");
    assert_eq!(i64_to_string(0), "0");
    assert_eq!(i64_to_string(i64::MIN), "-9223372036854775808");
}

#[test]
fn truncate_counts_characters() {
    assert_eq!(truncate_chars("hello", 10), "hello");
    assert_eq!(truncate_chars("hello", 2), "he");
    assert_eq!(truncate_chars("δδδδδ", 3), "δδδ");
    assert_eq!(truncate_chars("", 4), "");
}
