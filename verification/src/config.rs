//! The feed list: sections of feeds, and the parser for the plain-text
//! list that names them. A section line starts with `#`; a feed line is
//! `title | url`; blank lines and lines before the first section are
//! ignored; a malformed feed line or an invalid URL is an error.

use vstd::prelude::*;

verus! {

use vstd::string::StringSliceAdditionalSpecFns;
use vstd::string::StrSliceExecFns;
use vstd::string::StringExecFns;
use crate::post::PostView;
use crate::posts::Posts;
use crate::extract::{parse_url, url_norm, str_views};

/// A feed: its display title, its normalized URL, and its posts.
#[derive(Debug)]
pub struct Feed {
    /// Title of this feed.
    pub title: String,
    /// The normalized URL of this feed; its identity for storage.
    pub url: String,
    /// The posts in the feed.
    pub posts: Posts,
}

/// The mathematical shape of a feed.
#[verifier::ext_equal]
pub ghost struct FeedView {
    pub title: Seq<char>,
    pub url: Seq<char>,
    pub posts: Seq<PostView>,
}

impl View for Feed {
    type V = FeedView;

    open spec fn view(&self) -> FeedView {
        FeedView { title: self.title@, url: self.url@, posts: self.posts@ }
    }
}

/// A section: a display title and the feeds grouped under it.
#[derive(Debug)]
pub struct Section {
    /// Title of the section.
    pub title: String,
    /// The feeds in this section.
    pub feeds: Vec<Feed>,
}

/// The mathematical shape of a section.
#[verifier::ext_equal]
pub ghost struct SectionView {
    pub title: Seq<char>,
    pub feeds: Seq<FeedView>,
}

impl View for Section {
    type V = SectionView;

    open spec fn view(&self) -> SectionView {
        SectionView {
            title: self.title@,
            feeds: Seq::new(self.feeds@.len(), |i: int| self.feeds@[i]@),
        }
    }
}

/// A parsed feed list.
#[derive(Debug)]
pub struct FeedConfig {
    /// The sections, in file order.
    pub sections: Vec<Section>,
}

impl View for FeedConfig {
    type V = Seq<SectionView>;

    open spec fn view(&self) -> Seq<SectionView> {
        Seq::new(self.sections@.len(), |i: int| self.sections@[i]@)
    }
}

/// Why a feed list was rejected.
#[derive(Debug, Clone, Copy, PartialEq, Eq, Structural)]
pub enum ConfigError {
    /// A line inside a section was not `title | url`.
    BadFeedLine,
    /// A feed's URL did not parse as an absolute URL.
    BadUrl,
}

/// The whitespace stripped at line ends.
pub open spec fn is_space(c: char) -> bool {
    c == ' ' || c == '\t' || c == '\r' || c == '\n'
}

/// The index of the first non-space character; the length when all are
/// spaces.
pub open spec fn first_non_space(s: Seq<char>) -> int
    decreases s.len(),
{
    if s.len() == 0 {
        0
    } else if !is_space(s[0]) {
        0
    } else {
        1 + first_non_space(s.drop_first())
    }
}

/// The index just past the last non-space character; zero when all are
/// spaces.
pub open spec fn end_non_space(s: Seq<char>) -> int
    decreases s.len(),
{
    if s.len() == 0 {
        0
    } else if !is_space(s.last()) {
        s.len() as int
    } else {
        end_non_space(s.drop_last())
    }
}

/// `s` without leading and trailing whitespace.
pub open spec fn trim_spec(s: Seq<char>) -> Seq<char> {
    let start = first_non_space(s);
    let end = end_non_space(s);
    if start < end {
        s.subrange(start, end)
    } else {
        Seq::<char>::empty()
    }
}

/// The index of the first character that is not `mark`; the length when
/// all are.
pub open spec fn first_not_mark(s: Seq<char>, mark: char) -> int
    decreases s.len(),
{
    if s.len() == 0 {
        0
    } else if s[0] != mark {
        0
    } else {
        1 + first_not_mark(s.drop_first(), mark)
    }
}

/// `s` without its leading run of `mark` characters.
pub open spec fn strip_marks(s: Seq<char>, mark: char) -> Seq<char> {
    s.skip(first_not_mark(s, mark))
}

/// `s` split at every occurrence of `sep`: always at least one part, and
/// one more part than separators.
pub open spec fn split_char(s: Seq<char>, sep: char) -> Seq<Seq<char>>
    decreases s.len(),
{
    if s.len() == 0 {
        seq![Seq::<char>::empty()]
    } else {
        let rest = split_char(s.drop_first(), sep);
        if s[0] == sep {
            seq![Seq::<char>::empty()] + rest
        } else {
            seq![seq![s[0]] + rest[0]] + rest.drop_first()
        }
    }
}

pub proof fn lemma_split_char_len(s: Seq<char>, sep: char)
    ensures
        split_char(s, sep).len() >= 1,
    decreases s.len(),
{
    if s.len() > 0 {
        lemma_split_char_len(s.drop_first(), sep);
    }
}

/// The parser state: the finished sections and the section being filled.
#[verifier::ext_equal]
pub ghost struct ParseState {
    pub done: Seq<SectionView>,
    pub cur: Option<SectionView>,
}

/// The finished sections once the input ends: an unfinished section is
/// committed.
pub open spec fn commit(st: ParseState) -> Seq<SectionView> {
    match st.cur {
        Some(sec) => st.done.push(sec),
        None => st.done,
    }
}

/// One line's effect on the parser state. A blank line does nothing; a
/// `#` line commits the open section and opens one named by the rest of
/// the line; a feed line extends the open section and is ignored before
/// the first one; a feed line without exactly one pipe, or with a URL
/// that does not parse, is an error.
pub open spec fn parse_step(st: ParseState, line: Seq<char>) -> Result<ParseState, ConfigError> {
    let t = trim_spec(line);
    if t.len() == 0 {
        Ok(st)
    } else if t[0] == '#' {
        Ok(
            ParseState {
                done: commit(st),
                cur: Some(
                    SectionView {
                        title: trim_spec(strip_marks(t, '#')),
                        feeds: Seq::<FeedView>::empty(),
                    },
                ),
            },
        )
    } else {
        match st.cur {
            None => Ok(st),
            Some(sec) => {
                let parts = split_char(t, '|');
                if parts.len() == 2 {
                    match url_norm(trim_spec(parts[1])) {
                        Some(u) => Ok(
                            ParseState {
                                done: st.done,
                                cur: Some(
                                    SectionView {
                                        title: sec.title,
                                        feeds: sec.feeds.push(
                                            FeedView {
                                                title: trim_spec(parts[0]),
                                                url: u,
                                                posts: Seq::<PostView>::empty(),
                                            },
                                        ),
                                    },
                                ),
                            },
                        ),
                        None => Err(ConfigError::BadUrl),
                    }
                } else {
                    Err(ConfigError::BadFeedLine)
                }
            },
        }
    }
}

/// The parser folded over the remaining lines.
pub open spec fn parse_fold(st: ParseState, lines: Seq<Seq<char>>) -> Result<
    ParseState,
    ConfigError,
>
    decreases lines.len(),
{
    if lines.len() == 0 {
        Ok(st)
    } else {
        match parse_step(st, lines[0]) {
            Ok(st2) => parse_fold(st2, lines.drop_first()),
            Err(e) => Err(e),
        }
    }
}

/// What a feed list text parses to: the sections its lines describe, or
/// the first error.
pub open spec fn parse_spec(text: Seq<char>) -> Result<Seq<SectionView>, ConfigError> {
    match parse_fold(
        ParseState { done: Seq::<SectionView>::empty(), cur: None },
        split_char(text, '\n'),
    ) {
        Ok(st) => Ok(commit(st)),
        Err(e) => Err(e),
    }
}

/// Split `s` at every occurrence of `sep`.
fn split_str(s: &str, sep: char) -> (r: Vec<String>)
    ensures
        str_views(r@) == split_char(s@, sep),
{
    let n = s.unicode_len();
    let mut out: Vec<String> = Vec::new();
    let mut start: usize = 0;
    let mut i: usize = 0;
    proof {
        lemma_split_char_len(s@, sep);
        assert(s@.skip(0) =~= s@);
        assert(s@.subrange(0, 0) + split_char(s@, sep)[0] =~= split_char(s@, sep)[0]);
        assert(split_char(s@, sep) =~= seq![split_char(s@, sep)[0]] + split_char(
            s@,
            sep,
        ).drop_first());
        assert(str_views(out@) =~= Seq::<Seq<char>>::empty());
    }
    while i < n
        invariant
            start <= i <= n,
            n == s@.len(),
            forall|j: int| start <= j < i ==> s@[j] != sep,
            split_char(s@, sep) =~= str_views(out@) + (seq![
                s@.subrange(start as int, i as int) + split_char(s@.skip(i as int), sep)[0],
            ] + split_char(s@.skip(i as int), sep).drop_first()),
        decreases n - i,
    {
        let c = s.get_char(i);
        proof {
            lemma_split_char_len(s@.skip(i + 1), sep);
            assert(s@.skip(i as int)[0] == s@[i as int]);
            assert(s@.skip(i as int).drop_first() =~= s@.skip(i + 1));
        }
        if c == sep {
            let piece = s.substring_char(start, i);
            out.push(<String as StringExecFns>::from_str(piece));
            proof {
                assert(split_char(s@.skip(i as int), sep) =~= seq![Seq::<char>::empty()]
                    + split_char(s@.skip(i + 1), sep));
                assert(str_views(out@) =~= str_views(out@.drop_last()).push(
                    s@.subrange(start as int, i as int),
                ));
                assert(s@.subrange(start as int, i as int) + Seq::<char>::empty()
                    =~= s@.subrange(start as int, i as int));
                assert(s@.subrange(i + 1, i + 1) =~= Seq::<char>::empty());
                assert(split_char(s@, sep) =~= str_views(out@) + (seq![
                    s@.subrange(i + 1, i + 1) + split_char(s@.skip(i + 1), sep)[0],
                ] + split_char(s@.skip(i + 1), sep).drop_first()));
            }
            start = i + 1;
        } else {
            proof {
                let rest = split_char(s@.skip(i + 1), sep);
                assert(split_char(s@.skip(i as int), sep) =~= seq![seq![s@[i as int]] + rest[0]]
                    + rest.drop_first());
                assert(s@.subrange(start as int, i + 1) =~= s@.subrange(start as int, i as int)
                    + seq![s@[i as int]]);
                assert(s@.subrange(start as int, i + 1) + rest[0] =~= s@.subrange(
                    start as int,
                    i as int,
                ) + (seq![s@[i as int]] + rest[0]));
                assert(split_char(s@, sep) =~= str_views(out@) + (seq![
                    s@.subrange(start as int, i + 1) + split_char(s@.skip(i + 1), sep)[0],
                ] + split_char(s@.skip(i + 1), sep).drop_first()));
            }
        }
        i = i + 1;
    }
    let piece = s.substring_char(start, n);
    out.push(<String as StringExecFns>::from_str(piece));
    proof {
        assert(s@.skip(n as int) =~= Seq::<char>::empty());
        assert(split_char(s@.skip(n as int), sep) =~= seq![Seq::<char>::empty()]);
        assert(s@.subrange(start as int, n as int) + Seq::<char>::empty() =~= s@.subrange(
            start as int,
            n as int,
        ));
        assert(str_views(out@) =~= str_views(out@.drop_last()).push(
            s@.subrange(start as int, n as int),
        ));
        assert(str_views(out@) =~= split_char(s@, sep));
    }
    out
}

/// Strip leading and trailing whitespace.
fn trim_str(s: &str) -> (r: String)
    ensures
        r@ == trim_spec(s@),
{
    let n = s.unicode_len();
    let mut start: usize = 0;
    while start < n && is_space_exec(s.get_char(start))
        invariant
            start <= n,
            n == s@.len(),
            forall|j: int| 0 <= j < start ==> is_space(s@[j]),
        decreases n - start,
    {
        start = start + 1;
    }
    let mut end: usize = n;
    while end > start && is_space_exec(s.get_char(end - 1))
        invariant
            start <= end <= n,
            n == s@.len(),
            forall|j: int| 0 <= j < start ==> is_space(s@[j]),
            forall|j: int| end <= j < n ==> is_space(s@[j]),
        decreases end,
    {
        end = end - 1;
    }
    let r = <String as StringExecFns>::from_str(s.substring_char(start, end));
    proof {
        lemma_first_non_space(s@, start as int);
        if start == end {
            lemma_end_non_space_low(s@, start as int);
            assert(r@ =~= trim_spec(s@));
        } else {
            assert(!is_space(s@[start as int]));
            assert(!is_space(s@[end - 1]));
            lemma_end_non_space(s@, end as int);
            assert(r@ =~= trim_spec(s@));
        }
    }
    r
}

/// Whether `c` is stripped at line ends.
fn is_space_exec(c: char) -> (r: bool)
    ensures
        r == is_space(c),
{
    c == ' ' || c == '\t' || c == '\r' || c == '\n'
}

proof fn lemma_first_non_space(s: Seq<char>, k: int)
    requires
        0 <= k <= s.len(),
        forall|j: int| 0 <= j < k ==> is_space(s[j]),
        k < s.len() ==> !is_space(s[k]),
    ensures
        first_non_space(s) == k,
    decreases s.len(),
{
    if s.len() == 0 {
    } else if k == 0 {
    } else {
        assert(is_space(s[0]));
        assert forall|j: int| 0 <= j < k - 1 implies is_space(s.drop_first()[j]) by {
            assert(s.drop_first()[j] == s[j + 1]);
        }
        if k - 1 < s.drop_first().len() {
            assert(s.drop_first()[k - 1] == s[k]);
        }
        lemma_first_non_space(s.drop_first(), k - 1);
    }
}

proof fn lemma_end_non_space(s: Seq<char>, k: int)
    requires
        0 < k <= s.len(),
        forall|j: int| k <= j < s.len() ==> is_space(s[j]),
        !is_space(s[k - 1]),
    ensures
        end_non_space(s) == k,
    decreases s.len(),
{
    if k == s.len() {
    } else {
        assert(is_space(s.last()));
        assert forall|j: int| k <= j < s.drop_last().len() implies is_space(s.drop_last()[j]) by {
            assert(s.drop_last()[j] == s[j]);
        }
        assert(s.drop_last()[k - 1] == s[k - 1]);
        lemma_end_non_space(s.drop_last(), k);
    }
}

proof fn lemma_end_bounds(s: Seq<char>)
    ensures
        0 <= end_non_space(s) <= s.len(),
    decreases s.len(),
{
    if s.len() > 0 && is_space(s.last()) {
        lemma_end_bounds(s.drop_last());
    }
}

proof fn lemma_end_non_space_low(s: Seq<char>, k: int)
    requires
        0 <= k <= s.len(),
        forall|j: int| k <= j < s.len() ==> is_space(s[j]),
    ensures
        end_non_space(s) <= k,
    decreases s.len(),
{
    if s.len() == 0 {
    } else if k == s.len() {
        lemma_end_bounds(s);
    } else {
        assert(is_space(s.last()));
        assert forall|j: int| k <= j < s.drop_last().len() implies is_space(s.drop_last()[j]) by {
            assert(s.drop_last()[j] == s[j]);
        }
        lemma_end_non_space_low(s.drop_last(), k);
    }
}

/// Strip the leading run of `mark` characters.
fn strip_marks_str(s: &str, mark: char) -> (r: String)
    ensures
        r@ == strip_marks(s@, mark),
{
    let n = s.unicode_len();
    let mut start: usize = 0;
    while start < n && s.get_char(start) == mark
        invariant
            start <= n,
            n == s@.len(),
            forall|j: int| 0 <= j < start ==> s@[j] == mark,
        decreases n - start,
    {
        start = start + 1;
    }
    let r = <String as StringExecFns>::from_str(s.substring_char(start, n));
    proof {
        lemma_first_not_mark(s@, mark, start as int);
        assert(r@ =~= strip_marks(s@, mark));
    }
    r
}

proof fn lemma_first_not_mark(s: Seq<char>, mark: char, k: int)
    requires
        0 <= k <= s.len(),
        forall|j: int| 0 <= j < k ==> s[j] == mark,
        k < s.len() ==> s[k] != mark,
    ensures
        first_not_mark(s, mark) == k,
    decreases s.len(),
{
    if s.len() == 0 {
    } else if k == 0 {
    } else {
        assert forall|j: int| 0 <= j < k - 1 implies s.drop_first()[j] == mark by {
            assert(s.drop_first()[j] == s[j + 1]);
        }
        if k - 1 < s.drop_first().len() {
            assert(s.drop_first()[k - 1] == s[k]);
        }
        lemma_first_not_mark(s.drop_first(), mark, k - 1);
    }
}

/// The view of the section being filled, when one is open.
pub open spec fn opt_sec_view(o: Option<Section>) -> Option<SectionView> {
    match o {
        Some(sec) => Some(sec@),
        None => None,
    }
}

impl FeedConfig {
    /// Parse a feed list from its text. Returns the sections the lines
    /// describe, or the first malformed feed line or invalid URL.
    pub fn parse_config(text: &str) -> (r: Result<FeedConfig, ConfigError>)
        ensures
            match r {
                Ok(cfg) => parse_spec(text@) == Ok::<Seq<SectionView>, ConfigError>(cfg@),
                Err(e) => parse_spec(text@) == Err::<Seq<SectionView>, ConfigError>(e),
            },
    {
        let lines = split_str(text, '\n');
        let ghost all = str_views(lines@);
        let ghost init = ParseState { done: Seq::<SectionView>::empty(), cur: None };
        let mut done: Vec<Section> = Vec::new();
        let mut cur: Option<Section> = None;
        let mut i: usize = 0;
        proof {
            assert(all.skip(0) =~= all);
            assert(Seq::new(done@.len(), |k: int| done@[k]@) =~= Seq::<SectionView>::empty());
            assert(ParseState {
                done: Seq::new(done@.len(), |k: int| done@[k]@),
                cur: opt_sec_view(cur),
            } =~= init);
        }
        while i < lines.len()
            invariant
                i <= lines@.len(),
                all == str_views(lines@),
                parse_fold(init, all) == parse_fold(
                    ParseState {
                        done: Seq::new(done@.len(), |k: int| done@[k]@),
                        cur: opt_sec_view(cur),
                    },
                    all.skip(i as int),
                ),
                init == (ParseState { done: Seq::<SectionView>::empty(), cur: None }),
                all == split_char(text@, '\n'),
            decreases lines@.len() - i,
        {
            let ghost st_pre = ParseState {
                done: Seq::new(done@.len(), |k: int| done@[k]@),
                cur: opt_sec_view(cur),
            };
            proof {
                assert(all.skip(i as int)[0] == all[i as int]);
                assert(all.skip(i as int).drop_first() =~= all.skip(i + 1));
                assert(all[i as int] == lines@[i as int]@);
            }
            let t = trim_str(lines[i].as_str());
            proof {
                assert(t@ == trim_spec(all[i as int]));
            }
            if t.as_str().is_empty() {
                proof {
                    assert(parse_step(st_pre, all[i as int]) == Ok::<ParseState, ConfigError>(
                        st_pre,
                    ));
                }
            } else if t.as_str().get_char(0) == '#' {
                match cur {
                    Some(sec) => {
                        done.push(sec);
                    },
                    None => {},
                }
                let marks = strip_marks_str(t.as_str(), '#');
                let title = trim_str(marks.as_str());
                cur = Some(Section { title, feeds: Vec::new() });
                proof {
                    let st_now = ParseState {
                        done: Seq::new(done@.len(), |k: int| done@[k]@),
                        cur: opt_sec_view(cur),
                    };
                    assert(st_now.done =~= commit(st_pre));
                    let spec_next = ParseState {
                        done: commit(st_pre),
                        cur: Some(
                            SectionView {
                                title: trim_spec(strip_marks(trim_spec(all[i as int]), '#')),
                                feeds: Seq::<FeedView>::empty(),
                            },
                        ),
                    };
                    assert(st_now.cur->0.feeds =~= Seq::<FeedView>::empty());
                    assert(st_now.cur->0 =~= spec_next.cur->0);
                    assert(st_now =~= spec_next);
                    assert(parse_step(st_pre, all[i as int]) == Ok::<ParseState, ConfigError>(
                        spec_next,
                    ));
                }
            } else {
                match &mut cur {
                    None => {
                        proof {
                            assert(parse_step(st_pre, all[i as int]) == Ok::<
                                ParseState,
                                ConfigError,
                            >(st_pre));
                        }
                    },
                    Some(sec) => {
                        let parts = split_str(t.as_str(), '|');
                        proof {
                            assert(str_views(parts@) == split_char(t@, '|'));
                        }
                        if parts.len() == 2 {
                            let ftitle = trim_str(parts[0].as_str());
                            let rawurl = trim_str(parts[1].as_str());
                            proof {
                                assert(ftitle@ == trim_spec(str_views(parts@)[0]));
                                assert(rawurl@ == trim_spec(str_views(parts@)[1]));
                            }
                            match parse_url(rawurl.as_str()) {
                                Some(u) => {
                                    let ghost sec_pre = sec@;
                                    sec.feeds.push(
                                        Feed { title: ftitle, url: u, posts: Posts::new() },
                                    );
                                    proof {
                                        assert(sec@.feeds =~= sec_pre.feeds.push(
                                            FeedView {
                                                title: ftitle@,
                                                url: u@,
                                                posts: Seq::<PostView>::empty(),
                                            },
                                        ));
                                        assert(sec@ =~= SectionView {
                                            title: sec_pre.title,
                                            feeds: sec_pre.feeds.push(
                                                FeedView {
                                                    title: trim_spec(
                                                        split_char(trim_spec(all[i as int]), '|')[0],
                                                    ),
                                                    url: u@,
                                                    posts: Seq::<PostView>::empty(),
                                                },
                                            ),
                                        });
                                    }
                                },
                                None => {
                                    proof {
                                        assert(url_norm(
                                            trim_spec(
                                                split_char(trim_spec(all[i as int]), '|')[1],
                                            ),
                                        ) is None);
                                        assert(parse_step(st_pre, all[i as int]) == Err::<
                                            ParseState,
                                            ConfigError,
                                        >(ConfigError::BadUrl));
                                        assert(parse_fold(st_pre, all.skip(i as int)) == Err::<
                                            ParseState,
                                            ConfigError,
                                        >(ConfigError::BadUrl));
                                        assert(parse_fold(init, all) == Err::<
                                            ParseState,
                                            ConfigError,
                                        >(ConfigError::BadUrl));
                                        assert(all == split_char(text@, '\n'));
                                        assert(parse_spec(text@) == Err::<
                                            Seq<SectionView>,
                                            ConfigError,
                                        >(ConfigError::BadUrl));
                                    }
                                    return Err(ConfigError::BadUrl);
                                },
                            }
                        } else {
                            proof {
                                assert(str_views(parts@).len() != 2);
                                assert(split_char(trim_spec(all[i as int]), '|').len() != 2);
                                assert(parse_step(st_pre, all[i as int]) == Err::<
                                    ParseState,
                                    ConfigError,
                                >(ConfigError::BadFeedLine));
                                assert(parse_fold(st_pre, all.skip(i as int)) == Err::<
                                    ParseState,
                                    ConfigError,
                                >(ConfigError::BadFeedLine));
                                assert(parse_fold(init, all) == Err::<
                                    ParseState,
                                    ConfigError,
                                >(ConfigError::BadFeedLine));
                                assert(all == split_char(text@, '\n'));
                                assert(parse_spec(text@) == Err::<Seq<SectionView>, ConfigError>(
                                    ConfigError::BadFeedLine,
                                ));
                            }
                            return Err(ConfigError::BadFeedLine);
                        }
                    },
                }
            }
            proof {
                let st_now = ParseState {
                    done: Seq::new(done@.len(), |k: int| done@[k]@),
                    cur: opt_sec_view(cur),
                };
                assert(parse_step(st_pre, all[i as int]) == Ok::<ParseState, ConfigError>(st_now));
                assert(parse_fold(st_pre, all.skip(i as int)) == parse_fold(
                    st_now,
                    all.skip(i + 1),
                ));
            }
            i = i + 1;
        }
        proof {
            assert(all.skip(all.len() as int) =~= Seq::<Seq<char>>::empty());
        }
        let ghost st_end = ParseState {
            done: Seq::new(done@.len(), |k: int| done@[k]@),
            cur: opt_sec_view(cur),
        };
        let cfg = match cur {
            Some(sec) => {
                let mut d = done;
                d.push(sec);
                FeedConfig { sections: d }
            },
            None => FeedConfig { sections: done },
        };
        proof {
            assert(parse_fold(init, all) == Ok::<ParseState, ConfigError>(st_end));
            assert(cfg@ =~= commit(st_end));
            assert(parse_spec(text@) == Ok::<Seq<SectionView>, ConfigError>(cfg@));
        }
        Ok(cfg)
    }
}

} // verus!
