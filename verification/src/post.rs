//! The post model: a stable identifier, and an immutable post record whose
//! only mutable part is its read flag.

use vstd::prelude::*;

verus! {

/// An opaque, stable string identifier for a post. Equality and hashing
/// are by value.
#[derive(Debug, Hash)]
pub struct PostId(pub String);

/// A single post in a feed, with its identifier, title, the URLs found in
/// it, its publication time as seconds since the Unix epoch, and its read
/// flag.
#[derive(Debug)]
pub struct Post {
    /// Identifier of the post.
    pub id: PostId,
    /// Title of this post.
    pub title: String,
    /// The distinct URLs present in this post, in discovery order.
    pub urls: Vec<String>,
    /// Seconds since the Unix epoch at which the post was published.
    pub published: i64,
    /// Whether this post has been read.
    pub read: bool,
}

/// The mathematical shape of a post: every field as a plain value.
#[verifier::ext_equal]
pub ghost struct PostView {
    pub id: Seq<char>,
    pub title: Seq<char>,
    pub urls: Seq<Seq<char>>,
    pub published: i64,
    pub read: bool,
}

impl View for PostId {
    type V = Seq<char>;

    open spec fn view(&self) -> Seq<char> {
        self.0@
    }
}

impl View for Post {
    type V = PostView;

    open spec fn view(&self) -> PostView {
        PostView {
            id: self.id@,
            title: self.title@,
            urls: Seq::new(self.urls@.len(), |i: int| self.urls@[i]@),
            published: self.published,
            read: self.read,
        }
    }
}

impl Clone for PostId {
    fn clone(&self) -> (r: Self)
        ensures
            r@ == self@,
    {
        PostId(self.0.clone())
    }
}

impl PartialEq for PostId {
    fn eq(&self, other: &Self) -> (r: bool) {
        self.0 == other.0
    }
}

impl Eq for PostId {

}

impl vstd::std_specs::cmp::PartialEqSpecImpl for PostId {
    open spec fn obeys_eq_spec() -> bool {
        true
    }

    open spec fn eq_spec(&self, other: &Self) -> bool {
        self@ == other@
    }
}

impl Clone for Post {
    fn clone(&self) -> (r: Self)
        ensures
            r@ == self@,
    {
        let mut urls: Vec<String> = Vec::new();
        let mut i: usize = 0;
        while i < self.urls.len()
            invariant
                i <= self.urls.len(),
                urls@.len() == i,
                forall|j: int| 0 <= j < i ==> urls@[j]@ == self.urls@[j]@,
            decreases self.urls.len() - i,
        {
            urls.push(self.urls[i].clone());
            i = i + 1;
        }
        let r = Post {
            id: self.id.clone(),
            title: self.title.clone(),
            urls,
            published: self.published,
            read: self.read,
        };
        assert(r@.urls =~= self@.urls);
        r
    }
}

/// Two posts are the same post exactly when their identifiers are equal;
/// the other fields play no part in identity.
impl PartialEq for Post {
    fn eq(&self, other: &Self) -> (r: bool) {
        self.id == other.id
    }
}

impl Eq for Post {

}

impl vstd::std_specs::cmp::PartialEqSpecImpl for Post {
    open spec fn obeys_eq_spec() -> bool {
        true
    }

    open spec fn eq_spec(&self, other: &Self) -> bool {
        self@.id == other@.id
    }
}

} // verus!
