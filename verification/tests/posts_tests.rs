use nia::post::{Post, PostId};
use nia::posts::Posts;

fn post(id: &str, published: i64, read: bool) -> Post {
    Post {
        id: PostId(String::from(id)),
        title: format!("title of {}", id),
        urls: Vec::new(),
        published,
        read,
    }
}

#[test]
fn insert_keeps_newest_first() {
    let mut posts = Posts::new();
    posts.insert(post("a", 10, false));
    posts.insert(post("b", 30, false));
    posts.insert(post("c", 20, false));
    posts.insert(post("d", 30, false));
    let v = posts.as_ref();
    assert_eq!(v.len(), 4);
    for w in v.windows(2) {
        assert!(w[0].published >= w[1].published);
    }
    assert_eq!(v[0].published, 30);
    assert_eq!(v[3].published, 10);
}

#[test]
fn unread_matches_contents() {
    let mut posts = Posts::new();
    assert_eq!(posts.unread(), 0);
    posts.insert(post("a", 1, false));
    posts.insert(post("b", 2, true));
    posts.insert(post("c", 3, false));
    assert_eq!(posts.unread(), 2);
    posts.mark_read(&PostId(String::from("a")), true);
    assert_eq!(posts.unread(), 1);
    posts.mark_read(&PostId(String::from("a")), true);
    assert_eq!(posts.unread(), 1);
    posts.mark_read(&PostId(String::from("missing")), true);
    assert_eq!(posts.unread(), 1);
    posts.toggle_read(&PostId(String::from("a")));
    assert_eq!(posts.unread(), 2);
    posts.toggle_read(&PostId(String::from("c")));
    assert_eq!(posts.unread(), 1);
    let manual = posts.as_ref().iter().filter(|p| !p.read).count();
    assert_eq!(posts.unread(), manual);
}

#[test]
fn duplicate_id_is_not_inserted_twice() {
    let mut posts = Posts::new();
    posts.insert(post("same", 10, false));
    let mut other = post("same", 99, false);
    other.title = String::from("different content");
    posts.insert(other);
    assert_eq!(posts.len(), 1);
    let kept = posts.get_by_id(&PostId(String::from("same"))).unwrap();
    assert_eq!(kept.published, 10);
    assert_eq!(posts.unread(), 1);
}

#[test]
fn contains_needs_matching_id_and_time() {
    let mut posts = Posts::new();
    posts.insert(post("a", 10, false));
    assert!(posts.contains(&post("a", 10, true)));
    assert!(!posts.contains(&post("a", 11, false)));
    assert!(!posts.contains(&post("b", 10, false)));
}

#[test]
fn retain_drops_unread_accounting() {
    let mut posts = Posts::new();
    posts.insert(post("a", 1, false));
    posts.insert(post("b", 2, true));
    posts.insert(post("c", 3, false));
    posts.retain(|p: &Post| p.read);
    assert_eq!(posts.len(), 1);
    assert_eq!(posts.unread(), 0);
    assert!(posts.get_by_id(&PostId(String::from("b"))).is_some());
}

#[test]
fn append_merges_and_deduplicates() {
    let mut posts = Posts::new();
    posts.insert(post("a", 10, false));
    let mut batch = Posts::new();
    batch.insert(post("a", 10, false));
    batch.insert(post("b", 20, false));
    posts.append(batch);
    assert_eq!(posts.len(), 2);
    assert_eq!(posts.as_ref()[0].id, PostId(String::from("b")));
    assert_eq!(posts.as_ref()[1].id, PostId(String::from("a")));
}

#[test]
fn from_posts_sorts_and_counts() {
    let v = vec![post("a", 5, true), post("b", 50, false), post("c", 25, false)];
    let posts = Posts::from_posts(v);
    assert_eq!(posts.len(), 3);
    assert_eq!(posts.unread(), 2);
    assert_eq!(posts.as_ref()[0].id, PostId(String::from("b")));
    assert_eq!(posts.as_ref()[2].id, PostId(String::from("a")));
}

#[test]
fn get_by_id_finds_posts() {
    let mut posts = Posts::new();
    posts.insert(post("x", 7, false));
    assert!(posts.get_by_id(&PostId(String::from("x"))).is_some());
    assert!(posts.get_by_id(&PostId(String::from("y"))).is_none());
    assert_eq!(posts.get_by_id(&PostId(String::from("x"))).unwrap().published, 7);
}

#[test]
fn merge_after_fetch_end_to_end() {
    // Feed "A" holds one unread post; a fetch returns the same post and a
    // newer one. After the merge the collection holds exactly the two,
    // newest first, and the unread counter reflects both.
    let mut feed_posts = Posts::new();
    feed_posts.insert(post("p1", 100, false));

    let fetched = vec![post("p1", 100, false), post("p2", 200, false)];
    feed_posts.append(Posts::from_posts(fetched));

    assert_eq!(feed_posts.len(), 2);
    assert_eq!(feed_posts.as_ref()[0].id, PostId(String::from("p2")));
    assert_eq!(feed_posts.as_ref()[1].id, PostId(String::from("p1")));
    assert_eq!(feed_posts.unread(), 2);

    // The prior read state of p1 survives a re-fetch merge as well.
    feed_posts.mark_read(&PostId(String::from("p1")), true);
    let fetched_again = vec![post("p1", 100, false), post("p2", 200, false)];
    feed_posts.append(Posts::from_posts(fetched_again));
    assert_eq!(feed_posts.len(), 2);
    assert_eq!(feed_posts.unread(), 1);
}
