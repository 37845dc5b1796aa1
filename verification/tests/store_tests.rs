use nia::post::{Post, PostId};
use nia::posts::Posts;
use nia::store::{Store, StoreError};

fn post(id: &str, published: i64, read: bool) -> Post {
    Post {
        id: PostId(String::from(id)),
        title: format!("title {}", id),
        urls: vec![String::from("https://example.com/x"), String::from("https://example.com/y")],
        published,
        read,
    }
}

#[test]
fn save_then_load_round_trip() {
    let mut store = Store::open_temporary().unwrap();
    let mut posts = Posts::new();
    posts.insert(post("p1", 10, true));
    posts.insert(post("p2", 20, false));
    posts.insert(post("p3", 30, true));
    store.save_posts("https://feed.example/rss", &posts).unwrap();

    let loaded = store.load_feed("https://feed.example/rss").unwrap();
    assert_eq!(loaded.len(), 3);
    assert_eq!(loaded.unread(), 1);
    let p1 = loaded.get_by_id(&PostId(String::from("p1"))).unwrap();
    assert!(p1.read);
    assert_eq!(p1.published, 10);
    assert_eq!(p1.title, "title p1");
    assert_eq!(p1.urls.len(), 2);
    assert_eq!(p1.urls[0], "https://example.com/x");
    let p2 = loaded.get_by_id(&PostId(String::from("p2"))).unwrap();
    assert!(!p2.read);
    // the collection is rebuilt newest first
    assert_eq!(loaded.as_ref()[0].id, PostId(String::from("p3")));
}

#[test]
fn resave_updates_in_place() {
    let mut store = Store::open_temporary().unwrap();
    let mut posts = Posts::new();
    posts.insert(post("p1", 10, false));
    store.save_posts("u", &posts).unwrap();
    posts.mark_read(&PostId(String::from("p1")), true);
    store.save_posts("u", &posts).unwrap();
    let loaded = store.load_feed("u").unwrap();
    assert_eq!(loaded.len(), 1);
    assert!(loaded.get_by_id(&PostId(String::from("p1"))).unwrap().read);
}

#[test]
fn prefix_urls_stay_isolated() {
    // "a" is a prefix of "ab": the separator byte must keep them apart.
    let mut store = Store::open_temporary().unwrap();
    let mut short_posts = Posts::new();
    short_posts.insert(post("s", 1, false));
    let mut long_posts = Posts::new();
    long_posts.insert(post("l", 2, false));
    store.save_posts("https://x/a", &short_posts).unwrap();
    store.save_posts("https://x/ab", &long_posts).unwrap();

    let short_loaded = store.load_feed("https://x/a").unwrap();
    assert_eq!(short_loaded.len(), 1);
    assert!(short_loaded.get_by_id(&PostId(String::from("s"))).is_some());
    assert!(short_loaded.get_by_id(&PostId(String::from("l"))).is_none());

    let long_loaded = store.load_feed("https://x/ab").unwrap();
    assert_eq!(long_loaded.len(), 1);
    assert!(long_loaded.get_by_id(&PostId(String::from("l"))).is_some());

    let other = store.load_feed("https://y/none").unwrap();
    assert_eq!(other.len(), 0);
}

#[test]
fn open_at_impossible_path_fails() {
    let r = Store::open("/dev/null/not-a-directory/db");
    assert!(matches!(r, Err(StoreError::Storage)));
}

#[test]
fn codec_round_trip_exact() {
    let p = post("id-αβ", -5, true);
    let bytes = nia::codec::encode_post(&p);
    let q = nia::codec::decode_post(bytes.as_slice()).unwrap();
    assert_eq!(q.id, p.id);
    assert_eq!(q.title, p.title);
    assert_eq!(q.urls, p.urls);
    assert_eq!(q.published, p.published);
    assert_eq!(q.read, p.read);
}

#[test]
fn codec_rejects_garbage() {
    assert!(nia::codec::decode_post(&[]).is_none());
    assert!(nia::codec::decode_post(&[1, 2, 3]).is_none());
    let p = post("x", 3, false);
    let mut bytes = nia::codec::encode_post(&p);
    bytes.push(0);
    assert!(nia::codec::decode_post(bytes.as_slice()).is_none());
    let p2 = post("y", 4, false);
    let mut bytes2 = nia::codec::encode_post(&p2);
    let n = bytes2.len();
    bytes2[n - 1] = 7;
    assert!(nia::codec::decode_post(bytes2.as_slice()).is_none());
}

#[test]
fn entries_decode_into_a_collection() {
    // Two good records and one corrupt value: the corrupt one is skipped,
    // the others come back exactly, in a well-formed collection.
    let p1 = post("one", 10, true);
    let p2 = post("two", 20, false);
    let entries = vec![
        (vec![0u8, 1], nia::codec::encode_post(&p1)),
        (vec![0u8, 2], vec![9, 9, 9]),
        (vec![0u8, 3], nia::codec::encode_post(&p2)),
    ];
    let loaded = nia::store::posts_from_entries(entries);
    assert_eq!(loaded.len(), 2);
    assert_eq!(loaded.unread(), 1);
    assert!(loaded.get_by_id(&PostId(String::from("one"))).unwrap().read);
    assert_eq!(loaded.get_by_id(&PostId(String::from("two"))).unwrap().published, 20);
    assert!(loaded.get_by_id(&PostId(String::from("three"))).is_none());

    let empty = nia::store::posts_from_entries(Vec::new());
    assert_eq!(empty.len(), 0);
}

#[test]
fn make_key_uses_zero_separator() {
    let key = nia::store::make_key("ab", &PostId(String::from("cd")));
    assert_eq!(key, vec![b'a', b'b', 0u8, b'c', b'd']);
    let prefix = nia::store::make_feed_prefix("ab");
    assert_eq!(prefix, vec![b'a', b'b', 0u8]);
}
