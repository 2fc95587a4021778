//! Bindings for the fixture's two pages, standing in for what codegen will emit.
//!
//! Generated bindings are straight-line calls; these dispatch on the expression's source text
//! instead, which is slower, so numbers measured with them are conservative.
use vstd::prelude::*;
use crate::content::Post;
use crate::runtime::error::Error;
use crate::runtime::sink::{escape, Html, Sink, SinkExt, StringSink};
use crate::compiler::ast::DocumentV;
use crate::compiler::descriptor::{lemma_lowered_well_formed, spec_lower};
use crate::runtime::template::{
    all_within, lemma_prefix_no_binding_fault, lemma_well_formed_renders, render, spec_render,
    spec_written, writes_every_value, Bindings, Fault,
    Template,
};
use crate::text::same_text;

verus! {

/// Whether expression `index` of `expressions` has the source text `name`.
pub open spec fn names_expression(expressions: Seq<String>, index: usize, name: Seq<char>) -> bool {
    index < expressions.len() && expressions[index as int]@ == name
}

/// Whether expression `index` is `name`.
fn is_expression(expressions: &Vec<String>, index: usize, name: &str) -> (r: bool)
    ensures
        r == names_expression(expressions@, index, name@),
{
    index < expressions.len() && same_text(expressions[index].as_str(), name)
}

/// Bindings for one post page.
pub struct PostPage<'a> {
    /// The post being rendered.
    pub post: &'a Post,
    /// The descriptor's expression table.
    pub expressions: &'a Vec<String>,
}

/// What a post page writes for expression `index`: the post's fields escaped, its body as the
/// markup it already is, and nothing for an expression it does not know.
pub open spec fn post_value(post: Post, expressions: Seq<String>, index: usize) -> Seq<char> {
    if names_expression(expressions, index, "post.title"@) {
        escape(post.title@, false)
    } else if names_expression(expressions, index, "post.date"@) {
        escape(post.date@, false)
    } else if names_expression(expressions, index, "post.description"@) {
        escape(post.description@, false)
    } else if names_expression(expressions, index, "post.slug"@) {
        escape(post.slug@, false)
    } else if names_expression(expressions, index, "post.body"@) {
        post.body_html@
    } else {
        Seq::empty()
    }
}

impl<'a> PostPage<'a> {
    /// Write expression `index` of a post page.
    pub fn value<S: Sink>(&self, index: usize, sink: &mut S) -> (r: Result<(), Error>)
        ensures
            r is Ok ==> final(sink).written() == old(sink).written() + post_value(
                *self.post,
                self.expressions@,
                index,
            ),
            final(sink).refusals() >= old(sink).refusals(),
            final(sink).refusals() == old(sink).refusals() ==> r is Ok,
    {
        let e = self.expressions;
        if is_expression(e, index, "post.title") {
            sink.escaped(&self.post.title)
        } else if is_expression(e, index, "post.date") {
            sink.escaped(&self.post.date)
        } else if is_expression(e, index, "post.description") {
            sink.escaped(&self.post.description)
        } else if is_expression(e, index, "post.slug") {
            sink.escaped(&self.post.slug)
        } else if is_expression(e, index, "post.body") {
            sink.escaped(&Html(&self.post.body_html))
        } else {
            assert(old(sink).written() + Seq::<char>::empty() =~= old(sink).written());
            Ok(())
        }
    }

    /// Whether expression `index` holds: only `post.draft`, and only for a draft.
    pub fn truthy(&self, index: usize) -> (r: bool)
        ensures
            r == (names_expression(self.expressions@, index, "post.draft"@) && self.post.draft),
    {
        is_expression(self.expressions, index, "post.draft") && self.post.draft
    }
}

/// Bindings for the index page, which loops over posts.
pub struct IndexPage<'a> {
    /// Site title.
    pub title: &'a str,
    /// One binding per listed post, each a [`Page::Post`].
    pub posts: Vec<Page<'a>>,
    /// The descriptor's expression table.
    pub expressions: &'a Vec<String>,
}

/// What the index page writes for expression `index`: the site title, escaped, or nothing.
pub open spec fn index_value(title: Seq<char>, expressions: Seq<String>, index: usize) -> Seq<char> {
    if names_expression(expressions, index, "site.title"@) {
        escape(title, false)
    } else {
        Seq::empty()
    }
}

impl<'a> IndexPage<'a> {
    /// Write expression `index` of the index page.
    pub fn value<S: Sink>(&self, index: usize, sink: &mut S) -> (r: Result<(), Error>)
        ensures
            r is Ok ==> final(sink).written() == old(sink).written() + index_value(
                self.title@,
                self.expressions@,
                index,
            ),
            final(sink).refusals() >= old(sink).refusals(),
            final(sink).refusals() == old(sink).refusals() ==> r is Ok,
    {
        if is_expression(self.expressions, index, "site.title") {
            sink.escaped(&self.title)
        } else {
            assert(old(sink).written() + Seq::<char>::empty() =~= old(sink).written());
            Ok(())
        }
    }

    /// How many items expression `index` yields: the posts for `posts`, none otherwise.
    pub fn seq_len(&self, index: usize) -> (r: usize)
        ensures
            r == if names_expression(self.expressions@, index, "posts"@) {
                self.posts@.len()
            } else {
                0
            },
    {
        if is_expression(self.expressions, index, "posts") {
            self.posts.len()
        } else {
            0
        }
    }

    /// The bindings of post `item` of sequence `index`.
    pub fn seq_item(&self, index: usize, item: usize) -> (r: Option<&Page<'a>>)
        ensures
            r == if names_expression(self.expressions@, index, "posts"@) && item
                < self.posts@.len() {
                Some(&self.posts@[item as int])
            } else {
                None
            },
    {
        if is_expression(self.expressions, index, "posts") && item < self.posts.len() {
            Some(&self.posts[item])
        } else {
            None
        }
    }
}

/// The bindings of a page of the site.
pub enum Page<'a> {
    /// A post's own page.
    Post(PostPage<'a>),
    /// The index of every post.
    Index(IndexPage<'a>),
}

impl<'a> Bindings for Page<'a> {
    open spec fn spec_value(&self, index: usize) -> Option<Seq<char>> {
        match self {
            Page::Post(p) => Some(post_value(*p.post, p.expressions@, index)),
            Page::Index(x) => Some(index_value(x.title@, x.expressions@, index)),
        }
    }

    open spec fn spec_truthy(&self, index: usize) -> bool {
        match self {
            Page::Post(p) => names_expression(p.expressions@, index, "post.draft"@) && p.post.draft,
            Page::Index(_) => false,
        }
    }

    open spec fn spec_seq_len(&self, index: usize) -> usize {
        match self {
            Page::Post(_) => 0,
            Page::Index(x) => if names_expression(x.expressions@, index, "posts"@) {
                x.posts@.len() as usize
            } else {
                0
            },
        }
    }

    open spec fn spec_seq_item(&self, index: usize, item: usize) -> Option<Self> {
        match self {
            Page::Post(_) => None,
            Page::Index(x) => if names_expression(x.expressions@, index, "posts"@) && item
                < x.posts@.len() {
                Some(x.posts@[item as int])
            } else {
                None
            },
        }
    }

    fn value<S: Sink>(&self, index: usize, sink: &mut S) -> (r: Result<(), Error>) {
        match self {
            Page::Post(p) => p.value(index, sink),
            Page::Index(x) => x.value(index, sink),
        }
    }

    fn truthy(&self, index: usize) -> (r: bool) {
        match self {
            Page::Post(p) => p.truthy(index),
            Page::Index(_) => false,
        }
    }

    fn seq_len(&self, index: usize) -> (r: usize) {
        match self {
            Page::Post(_) => 0,
            Page::Index(x) => x.seq_len(index),
        }
    }

    fn seq_item(&self, index: usize, item: usize) -> (r: Option<&Self>) {
        match self {
            Page::Post(_) => None,
            Page::Index(x) => x.seq_item(index, item),
        }
    }
}

/// The bindings of the page of `post` under `template`.
pub open spec fn post_page<'a>(post: &'a Post, template: &'a Template) -> Page<'a> {
    Page::Post(PostPage { post, expressions: &template.expressions })
}

/// Whether `rendered`, a page rendered with a string sink, is what rendering `template` against
/// `page` gives: the output on success, the matching error otherwise.
pub open spec fn renders_as<'a>(template: &'a Template, page: Page<'a>, rendered: Result<String, Error>) -> bool {
    match spec_render(template@, page) {
        Ok(out) => rendered matches Ok(s) && s@ == out,
        Err(Fault::Unknown { index, available }) => rendered matches Err(
            Error::UnknownExpression { index: i, available: a },
        ) && i == index && a == available,
        Err(Fault::Binding(e)) => rendered matches Err(e2) && e2 == e,
    }
}

/// Render the page of `post` with `template`, as the build writes it to disk.
pub fn render_post_page(template: &Template, post: &Post) -> (r: Result<String, Error>)
    ensures
        renders_as(template, post_page(post, template), r),
        all_within(template@.nodes, template@.expressions.len()) ==> r is Ok,
{
    let count = template.expressions.len();
    proof {
        lemma_pages_write_every_value();
        if all_within(template@.nodes, template@.expressions.len()) {
            assert(template@.expressions.len() == count);
            lemma_well_formed_renders(template@, post_page(post, template));
        }
    }
    let bindings = Page::Post(PostPage { post, expressions: &template.expressions });
    let mut sink = StringSink::with_capacity(8 * 1024);
    match render(template, &bindings, &mut sink) {
        Ok(()) => Ok(sink.into_string()),
        Err(e) => Err(e),
    }
}

/// The title of the fixture's index page.
pub open spec fn fixture_title() -> Seq<char> {
    "Triblenka fixture"@
}

/// Whether `x` lists `posts` under `template`: the fixture's title, the template's expressions,
/// and one post page per post, in order.
pub open spec fn lists<'a>(x: IndexPage<'a>, template: &'a Template, posts: Seq<Post>) -> bool {
    &&& x.title@ == fixture_title()
    &&& x.expressions == &template.expressions
    &&& x.posts@.len() == posts.len()
    &&& forall|i: int|
        0 <= i < posts.len() ==> #[trigger] x.posts@[i] == Page::Post(
            PostPage { post: &posts[i], expressions: &template.expressions },
        )
}

/// The index page's bindings for `posts`.
pub fn index_bindings<'a>(template: &'a Template, posts: &'a [Post]) -> (r: IndexPage<'a>)
    ensures
        lists(r, template, posts@),
{
    let mut pages: Vec<Page<'a>> = Vec::new();
    let mut i: usize = 0;
    while i < posts.len()
        invariant
            i <= posts@.len(),
            pages@.len() == i,
            forall|j: int|
                0 <= j < i ==> #[trigger] pages@[j] == Page::Post(
                    PostPage { post: &posts@[j], expressions: &template.expressions },
                ),
        decreases posts@.len() - i,
    {
        pages.push(Page::Post(PostPage { post: &posts[i], expressions: &template.expressions }));
        i += 1;
    }
    proof {
        reveal_strlit("Triblenka fixture");
    }
    IndexPage { title: "Triblenka fixture", posts: pages, expressions: &template.expressions }
}

/// Render the index of `posts` with `template`, as the build writes it to disk.
pub fn render_index_page(template: &Template, posts: &[Post]) -> (r: Result<String, Error>)
    ensures
        exists|x: IndexPage| #[trigger] lists(x, template, posts@) && renders_as(template, Page::Index(x), r),
        all_within(template@.nodes, template@.expressions.len()) ==> r is Ok,
{
    let bindings = Page::Index(index_bindings(template, posts));
    let mut sink = StringSink::with_capacity(64 * 1024);
    let r = match render(template, &bindings, &mut sink) {
        Ok(()) => Ok(sink.into_string()),
        Err(e) => Err(e),
    };
    let count = template.expressions.len();
    proof {
        lemma_pages_write_every_value();
        if all_within(template@.nodes, template@.expressions.len()) {
            assert(template@.expressions.len() == count);
            lemma_well_formed_renders(template@, bindings);
        }
    }
    match bindings {
        Page::Index(x) => {
            assert(lists(x, template, posts@));
        },
        Page::Post(_) => {},
    }
    r
}

/// Render the index of `posts` with `template`, keeping whatever was written if rendering
/// stopped early.
pub fn render_index(template: &Template, posts: &[Post]) -> (r: String)
    ensures
        exists|x: IndexPage| #[trigger] lists(x, template, posts@) && r@ == spec_written(template@, Page::Index(x)),
{
    let bindings = Page::Index(index_bindings(template, posts));
    let mut sink = StringSink::with_capacity(64 * 1024);
    let _ = render(template, &bindings, &mut sink);
    proof {
        lemma_pages_write_every_value();
        lemma_prefix_no_binding_fault(
            template@.nodes,
            template@.nodes.len(),
            template@.expressions.len() as usize,
            bindings,
        );
    }
    match bindings {
        Page::Index(x) => {
            assert(lists(x, template, posts@));
        },
        Page::Post(_) => {},
    }
    sink.into_string()
}

/// Every page writes every value it is asked for: an expression it does not know writes
/// nothing rather than failing.
pub proof fn lemma_pages_write_every_value<'a>()
    ensures
        writes_every_value::<Page<'a>>(),
{
}

/// A page renders, without error, against any descriptor lowered from a parsed document.
pub proof fn lemma_lowered_pages_render<'a>(doc: DocumentV, page: Page<'a>)
    requires
        spec_lower(doc).expressions.len() <= usize::MAX,
    ensures
        spec_render(spec_lower(doc), page) is Ok,
{
    lemma_lowered_well_formed(doc);
    lemma_pages_write_every_value();
    lemma_well_formed_renders(spec_lower(doc), page);
}

} // verus!
