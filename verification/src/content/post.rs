//! Posts, and how a markdown document with frontmatter becomes one.
use vstd::prelude::*;
use crate::content::Error;
use crate::text::{chars_of, is_space, is_whitespace, string_from, trim_start};

verus! {

/// A blog post, as stored.
#[derive(Debug, Clone, PartialEq, Eq)]
pub struct Post {
    /// URL slug, derived from the file's path.
    pub slug: String,
    /// Title, from frontmatter.
    pub title: String,
    /// Publication date, `YYYY-MM-DD`.
    pub date: String,
    /// Short description, from frontmatter.
    pub description: String,
    /// Whether the post is a draft.
    pub draft: bool,
    /// Tags, from frontmatter.
    pub tags: Vec<String>,
    /// The body, rendered to HTML at load time.
    pub body_html: String,
}

/// Frontmatter as written by an author, once decoded, with defaults applied.
#[derive(Debug, Clone, PartialEq, Eq)]
pub struct Frontmatter {
    /// Title of the post.
    pub title: String,
    /// Publication date, `YYYY-MM-DD`.
    pub date: String,
    /// Short description; empty when the author gave none.
    pub description: String,
    /// Whether the post is a draft; not unless the author says so.
    pub draft: bool,
    /// Tags; none unless the author gave some.
    pub tags: Vec<String>,
}

/// The fence that opens and closes frontmatter.
pub open spec fn fence() -> Seq<char> {
    seq!['-', '-', '-']
}

/// The line that closes frontmatter: a newline, then the fence.
pub open spec fn closing_fence() -> Seq<char> {
    seq!['\n', '-', '-', '-']
}

/// Whether `s` opens with the frontmatter fence.
pub open spec fn opens_with_fence(s: Seq<char>) -> bool {
    s.len() >= 3 && s.take(3) == fence()
}

/// Whether the closing fence stands in `s` at `i`.
pub open spec fn closes_at(s: Seq<char>, i: int) -> bool {
    0 <= i && i + 4 <= s.len() && s.subrange(i, i + 4) == closing_fence()
}

/// The first place at or after `from` where the closing fence stands in `s`.
pub open spec fn first_close(s: Seq<char>, from: int) -> Option<int>
    decreases s.len() - from,
{
    if from < 0 || from + 4 > s.len() {
        None
    } else if closes_at(s, from) {
        Some(from)
    } else {
        first_close(s, from + 1)
    }
}

/// `first_close` finds the first place, and only a place where the fence stands.
pub proof fn lemma_first_close(s: Seq<char>, from: int)
    requires
        0 <= from,
    ensures
        first_close(s, from) matches Some(i) ==> from <= i && closes_at(s, i) && forall|j: int|
            from <= j < i ==> !closes_at(s, j),
        first_close(s, from) is None ==> forall|j: int| from <= j ==> !closes_at(s, j),
    decreases s.len() - from,
{
    if from + 4 <= s.len() && !closes_at(s, from) {
        lemma_first_close(s, from + 1);
    }
}

/// What is wrong with a document that does not open with a fence.
pub open spec fn no_fence_message() -> Seq<char> {
    "expected the file to open with a `---` frontmatter fence"@
}

/// What is wrong with a document whose frontmatter never closes.
pub open spec fn unclosed_message() -> Seq<char> {
    "the frontmatter fence is never closed with `---`"@
}

/// Whether `e` is the frontmatter error for `path` with message `message`.
pub open spec fn is_frontmatter_error(e: Error, path: Seq<char>, message: Seq<char>) -> bool {
    e matches Error::Frontmatter { path: p, message: m } && p@ == path && m@ == message
}

/// A document split at its frontmatter: the frontmatter text and the body after the closing
/// fence, or the frontmatter error the document earns.
pub open spec fn split_document(source: Seq<char>) -> Result<(Seq<char>, Seq<char>), Seq<char>> {
    if !opens_with_fence(source) {
        Err(no_fence_message())
    } else {
        let rest = source.skip(3);
        match first_close(rest, 0) {
            None => Err(unclosed_message()),
            Some(i) => Ok((rest.take(i), rest.skip(i + 4))),
        }
    }
}

/// Split a document into its frontmatter and its body.
///
/// The document must open with `---`; the frontmatter runs to the first newline followed by
/// `---`, and the body is everything after that fence. A document that breaks either rule is
/// refused with an error that names `path` and says what to fix.
pub fn split_frontmatter(path: &str, source: &str) -> (r: Result<(String, String), Error>)
    ensures
        split_document(source@) matches Ok((yaml, body)) ==> r matches Ok((y, b)) && y@ == yaml
            && b@ == body,
        split_document(source@) matches Err(message) ==> r matches Err(e) && is_frontmatter_error(
            e,
            path@,
            message,
        ),
{
    let cs = chars_of(source);
    proof {
        reveal_strlit("expected the file to open with a `---` frontmatter fence");
        reveal_strlit("the frontmatter fence is never closed with `---`");
    }
    if !(cs.len() >= 3 && cs[0] == '-' && cs[1] == '-' && cs[2] == '-') {
        proof {
            if opens_with_fence(source@) {
                assert(source@.take(3)[0] == '-');
                assert(source@.take(3)[1] == '-');
                assert(source@.take(3)[2] == '-');
            }
        }
        return Err(
            Error::Frontmatter {
                path: path.to_string(),
                message: "expected the file to open with a `---` frontmatter fence".to_string(),
            },
        );
    }
    assert(source@.take(3) =~= fence());
    let ghost rest = source@.skip(3);
    let n = cs.len();
    let mut i: usize = 3;
    while n >= 4 && i <= n - 4
        invariant
            cs@ == source@,
            n == cs@.len(),
            3 <= i,
            i <= n || i == 3,
            rest == source@.skip(3),
            opens_with_fence(source@),
            first_close(rest, 0) == first_close(rest, i - 3),
        decreases n - i,
    {
        let here = cs[i] == '\n' && cs[i + 1] == '-' && cs[i + 2] == '-' && cs[i + 3] == '-';
        proof {
            let j = i - 3;
            assert(rest.subrange(j, j + 4) =~= cs@.subrange(i as int, i + 4));
            if here {
                assert(cs@.subrange(i as int, i + 4) =~= closing_fence());
                assert(closes_at(rest, j));
                assert(first_close(rest, j) == Some(j));
            } else {
                if closes_at(rest, j) {
                    assert(cs@.subrange(i as int, i + 4)[0] == cs@[i as int]);
                    assert(cs@.subrange(i as int, i + 4)[1] == cs@[i + 1]);
                    assert(cs@.subrange(i as int, i + 4)[2] == cs@[i + 2]);
                    assert(cs@.subrange(i as int, i + 4)[3] == cs@[i + 3]);
                }
            }
        }
        if here {
            let yaml = string_from(&cs, 3, i);
            let body = string_from(&cs, i + 4, n);
            proof {
                assert(yaml@ =~= rest.take(i - 3));
                assert(body@ =~= rest.skip(i - 3 + 4));
            }
            return Ok((yaml, body));
        }
        i += 1;
    }
    assert(first_close(rest, i - 3) is None);
    Err(
        Error::Frontmatter {
            path: path.to_string(),
            message: "the frontmatter fence is never closed with `---`".to_string(),
        },
    )
}

/// `s` without its leading dashes, as `trim_start_matches('-')` leaves it.
pub open spec fn strip_dashes(s: Seq<char>) -> Seq<char>
    decreases s.len(),
{
    if s.len() > 0 && s[0] == '-' {
        strip_dashes(s.drop_first())
    } else {
        s
    }
}

/// The markdown of a body: what follows the closing fence, without the rest of a fence line
/// of dashes and without leading white space.
pub open spec fn prepared_body(body: Seq<char>) -> Seq<char> {
    trim_start(strip_dashes(body))
}

/// How many dashes `s` starts with: `strip_dashes` drops exactly those.
proof fn leading_dashes(s: Seq<char>) -> (d: int)
    ensures
        0 <= d <= s.len(),
        strip_dashes(s) == s.skip(d),
        forall|i: int| 0 <= i < d ==> s[i] == '-',
        d < s.len() ==> s[d] != '-',
    decreases s.len(),
{
    if s.len() > 0 && s[0] == '-' {
        let d = leading_dashes(s.drop_first());
        assert(s.drop_first().skip(d) =~= s.skip(d + 1));
        assert forall|i: int| 0 <= i < d + 1 implies s[i] == '-' by {
            if i > 0 {
                assert(s[i] == s.drop_first()[i - 1]);
            }
        }
        d + 1
    } else {
        assert(s.skip(0) =~= s);
        0
    }
}

/// How much white space `s` starts with: `trim_start` drops exactly that.
proof fn leading_space(s: Seq<char>) -> (w: int)
    ensures
        0 <= w <= s.len(),
        trim_start(s) == s.skip(w),
        forall|i: int| 0 <= i < w ==> is_space(s[i]),
        w < s.len() ==> !is_space(s[w]),
    decreases s.len(),
{
    if s.len() > 0 && is_space(s[0]) {
        let w = leading_space(s.drop_first());
        assert(s.drop_first().skip(w) =~= s.skip(w + 1));
        assert forall|i: int| 0 <= i < w + 1 implies is_space(s[i]) by {
            if i > 0 {
                assert(s[i] == s.drop_first()[i - 1]);
            }
        }
        w + 1
    } else {
        assert(s.skip(0) =~= s);
        0
    }
}

/// Preparing a body drops the run of dashes it starts with, then the white space that follows
/// that run, and nothing else: the result is the body from `cut.1` on, where `cut.0` dashes open
/// the body and white space alone stands between them and `cut.1`. A dash after white space
/// stays.
pub proof fn lemma_prepared_body_drops_dashes_then_space(body: Seq<char>) -> (cut: (int, int))
    ensures
        0 <= cut.0 <= cut.1 <= body.len(),
        prepared_body(body) == body.skip(cut.1),
        forall|i: int| 0 <= i < cut.0 ==> body[i] == '-',
        cut.0 < body.len() ==> body[cut.0] != '-',
        forall|i: int| cut.0 <= i < cut.1 ==> is_space(body[i]),
        cut.1 < body.len() ==> !is_space(body[cut.1]),
{
    let d = leading_dashes(body);
    let rest = body.skip(d);
    let w = leading_space(rest);
    assert(rest.skip(w) =~= body.skip(d + w));
    assert forall|i: int| d <= i < d + w implies is_space(body[i]) by {
        assert(body[i] == rest[i - d]);
    }
    if d + w < body.len() {
        assert(body[d + w] == rest[w]);
    }
    (d, d + w)
}

/// Where `strip_dashes` then `trim_start` of `cs[from..]` begins.
fn prepared_start(cs: &Vec<char>, from: usize) -> (r: usize)
    requires
        from <= cs@.len(),
    ensures
        from <= r <= cs@.len(),
        cs@.skip(r as int) == trim_start(strip_dashes(cs@.skip(from as int))),
    decreases cs@.len() - from,
{
    if from < cs.len() && cs[from] == '-' {
        assert(cs@.skip(from as int).drop_first() =~= cs@.skip(from + 1));
        prepared_start(cs, from + 1)
    } else {
        assert(strip_dashes(cs@.skip(from as int)) == cs@.skip(from as int));
        trimmed_start(cs, from)
    }
}

/// Where `trim_start` of `cs[from..]` begins.
fn trimmed_start(cs: &Vec<char>, from: usize) -> (r: usize)
    requires
        from <= cs@.len(),
    ensures
        from <= r <= cs@.len(),
        cs@.skip(r as int) == trim_start(cs@.skip(from as int)),
    decreases cs@.len() - from,
{
    if from < cs.len() && is_whitespace(cs[from]) {
        assert(cs@.skip(from as int).drop_first() =~= cs@.skip(from + 1));
        trimmed_start(cs, from + 1)
    } else {
        from
    }
}

/// The markdown of `body`, prepared for rendering.
pub fn prepare_body(body: &str) -> (r: String)
    ensures
        r@ == prepared_body(body@),
{
    let cs = chars_of(body);
    assert(cs@.skip(0) =~= cs@);
    let start = prepared_start(&cs, 0);
    let r = string_from(&cs, start, cs.len());
    assert(r@ =~= cs@.skip(start as int));
    r
}

/// The HTML that `comrak::markdown_to_html` renders from `markdown` under its default options.
pub uninterp spec fn markdown_html(markdown: Seq<char>) -> Seq<char>;

/// `comrak::markdown_to_html` with `comrak::Options::default()`.
///
/// Trusted: the rendering depends on the markdown text and the options alone, and the options
/// are always the defaults, so the result is named rather than described; CommonMark takes a
/// specification to state.
#[verifier::external_body]
fn markdown_to_html(markdown: &str) -> (r: String)
    ensures
        r@ == markdown_html(markdown@),
{
    comrak::markdown_to_html(markdown, &comrak::Options::default())
}

/// The HTML of a post's body: the prepared markdown, rendered.
pub fn render_body(body: &str) -> (r: String)
    ensures
        r@ == markdown_html(prepared_body(body@)),
{
    let markdown = prepare_body(body);
    markdown_to_html(markdown.as_str())
}

/// Whether `post` is the post with `slug` and `body_html` that `meta` describes.
pub open spec fn describes(post: Post, slug: Seq<char>, meta: Frontmatter, body_html: Seq<char>) -> bool {
    &&& post.slug@ == slug
    &&& post.title == meta.title
    &&& post.date == meta.date
    &&& post.description == meta.description
    &&& post.draft == meta.draft
    &&& post.tags == meta.tags
    &&& post.body_html@ == body_html
}

/// The post with `slug`, frontmatter `meta`, and a body already rendered to `body_html`.
pub fn assemble_post(slug: &str, meta: Frontmatter, body_html: String) -> (r: Post)
    ensures
        describes(r, slug@, meta, body_html@),
{
    Post {
        slug: slug.to_string(),
        title: meta.title,
        date: meta.date,
        description: meta.description,
        draft: meta.draft,
        tags: meta.tags,
        body_html,
    }
}

/// Finish parsing a post once its frontmatter has been decoded.
///
/// `meta` is the decoded frontmatter, or what the decoder said was wrong with it; that becomes a
/// frontmatter error naming `path`. Otherwise the body is rendered and the post assembled.
pub fn finish_post(path: &str, slug: &str, meta: Result<Frontmatter, String>, body: &str) -> (r:
    Result<Post, Error>)
    ensures
        meta matches Err(m) ==> r matches Err(e) && is_frontmatter_error(e, path@, m@),
        meta matches Ok(fm) ==> r matches Ok(post) && describes(
            post,
            slug@,
            fm,
            markdown_html(prepared_body(body@)),
        ),
{
    match meta {
        Err(message) => Err(Error::Frontmatter { path: path.to_string(), message }),
        Ok(fm) => {
            let html = render_body(body);
            Ok(assemble_post(slug, fm, html))
        },
    }
}

} // verus!
