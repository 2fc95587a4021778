//! Field-level incrementality: which expressions of a template read a field that an edit moved.
//!
//! A page keyed on the fields its render observed needs rebuilding only when one of them moved;
//! an index that reads titles and dates is untouched by an edit to a body.
use vstd::prelude::*;
use vstd::string::StringSliceAdditionalSpecFns;
use crate::compiler::ast::{Document, DocumentV};
use crate::compiler::descriptor::{lower as lower_document, spec_lower};
use crate::compiler::parser::{parse, spec_parse};
use crate::content::Post;
use crate::runtime::template::{Template, TemplateV};
use crate::runtime::tracking::strictly_increasing;
use crate::text::same_text;

verus! {

/// The document with no frontmatter and no nodes.
pub open spec fn empty_document() -> DocumentV {
    DocumentV { frontmatter: None, frontmatter_span: None, nodes: Seq::empty() }
}

/// The descriptor compiled from a template's source: its parse, lowered, or the empty
/// descriptor where the source does not parse.
pub open spec fn compiled(source: Seq<u8>) -> TemplateV {
    match spec_parse(source) {
        Ok(d) => spec_lower(d),
        Err(_) => spec_lower(empty_document()),
    }
}

/// Compile a template's source to a descriptor, falling back to the empty descriptor.
pub fn lower(source: &str) -> (r: Template)
    ensures
        r@ == compiled(source.spec_bytes()),
{
    match parse(source) {
        Ok(d) => lower_document(&d),
        Err(_) => {
            let empty = Document { frontmatter: None, frontmatter_span: None, nodes: Vec::new() };
            assert(empty@.nodes =~= empty_document().nodes);
            lower_document(&empty)
        },
    }
}

/// Whether the field that expression `name` reads differs between `old` and `new`.
pub open spec fn field_moved(name: Seq<char>, old: Post, new: Post) -> bool {
    ||| name == "post.title"@ && old.title@ != new.title@
    ||| name == "post.date"@ && old.date@ != new.date@
    ||| name == "post.description"@ && old.description@ != new.description@
    ||| name == "post.slug"@ && old.slug@ != new.slug@
    ||| name == "post.draft"@ && old.draft != new.draft
    ||| name == "post.body"@ && old.body_html@ != new.body_html@
}

/// The indices among the first `k` of `expressions` whose field moved, ascending.
pub open spec fn moved_indices(expressions: Seq<Seq<char>>, old: Post, new: Post, k: nat) -> Seq<usize>
    decreases k,
{
    if k == 0 {
        Seq::empty()
    } else {
        let before = moved_indices(expressions, old, new, (k - 1) as nat);
        if field_moved(expressions[k - 1], old, new) {
            before.push((k - 1) as usize)
        } else {
            before
        }
    }
}

/// Every index `moved_indices` lists is below `k`.
proof fn lemma_moved_below(expressions: Seq<Seq<char>>, old: Post, new: Post, k: nat)
    ensures
        forall|i: int|
            0 <= i < moved_indices(expressions, old, new, k).len() ==> #[trigger] moved_indices(
                expressions,
                old,
                new,
                k,
            )[i] < k,
    decreases k,
{
    if k > 0 {
        let before = moved_indices(expressions, old, new, (k - 1) as nat);
        let all = moved_indices(expressions, old, new, k);
        lemma_moved_below(expressions, old, new, (k - 1) as nat);
        assert forall|i: int| 0 <= i < all.len() implies #[trigger] all[i] < k by {
            if i < before.len() {
                assert(all[i] == before[i]);
            }
        }
    }
}

/// Which expressions of `template` read a field that differs between `old` and `new`, in
/// ascending order, as `Observed::intersects` wants them.
pub fn changed_expressions(template: &Template, old: &Post, new: &Post) -> (r: Vec<usize>)
    ensures
        r@ == moved_indices(template@.expressions, *old, *new, template@.expressions.len()),
        strictly_increasing(r@),
{
    let title = !same_text(old.title.as_str(), new.title.as_str());
    let date = !same_text(old.date.as_str(), new.date.as_str());
    let description = !same_text(old.description.as_str(), new.description.as_str());
    let slug = !same_text(old.slug.as_str(), new.slug.as_str());
    let draft = old.draft != new.draft;
    let body = !same_text(old.body_html.as_str(), new.body_html.as_str());
    let exprs = &template.expressions;
    let ghost view = template@.expressions;
    let mut out: Vec<usize> = Vec::new();
    let mut i: usize = 0;
    while i < exprs.len()
        invariant
            i <= exprs@.len(),
            view == exprs.deep_view(),
            view.len() == exprs@.len(),
            title == (old.title@ != new.title@),
            date == (old.date@ != new.date@),
            description == (old.description@ != new.description@),
            slug == (old.slug@ != new.slug@),
            draft == (old.draft != new.draft),
            body == (old.body_html@ != new.body_html@),
            out@ == moved_indices(view, *old, *new, i as nat),
        decreases exprs@.len() - i,
    {
        let e = exprs[i].as_str();
        assert(view[i as int] == exprs@[i as int]@);
        let moved = (title && same_text(e, "post.title")) || (date && same_text(e, "post.date")) || (
        description && same_text(e, "post.description")) || (slug && same_text(e, "post.slug")) || (
        draft && same_text(e, "post.draft")) || (body && same_text(e, "post.body"));
        if moved {
            out.push(i);
        }
        i += 1;
    }
    proof {
        let n = view.len();
        assert forall|a: int, b: int| 0 <= a < b < out@.len() implies out@[a] < out@[b] by {
            lemma_increasing(view, *old, *new, n, a, b);
        }
    }
    out
}

/// Whether `i` is listed among the first `k` indices whose field moved.
proof fn lemma_moved_lists(expressions: Seq<Seq<char>>, old: Post, new: Post, k: nat, i: usize)
    requires
        k <= usize::MAX,
    ensures
        moved_indices(expressions, old, new, k).contains(i) <==> (i < k && field_moved(
            expressions[i as int],
            old,
            new,
        )),
    decreases k,
{
    if k > 0 {
        lemma_moved_lists(expressions, old, new, (k - 1) as nat, i);
        let before = moved_indices(expressions, old, new, (k - 1) as nat);
        let all = moved_indices(expressions, old, new, k);
        if field_moved(expressions[k - 1], old, new) {
            assert(all == before.push((k - 1) as usize));
            if before.contains(i) {
                let j = choose|j: int| 0 <= j < before.len() && before[j] == i;
                assert(all[j] == i);
            }
            if all.contains(i) && i != k - 1 {
                let j = choose|j: int| 0 <= j < all.len() && all[j] == i;
                assert(all[before.len() as int] == (k - 1) as usize);
                assert(j < before.len());
                assert(before[j] == i);
            }
            if i == k - 1 {
                assert(all[before.len() as int] == i);
            }
        }
    }
}

/// An edit moves exactly the expressions that read a field it changed: index `i` of the
/// template's table is listed iff its source is `post.title`, `post.date`, `post.description`,
/// `post.slug`, `post.draft` or `post.body` and that field differs between `old` and `new`.
pub proof fn lemma_changed_expressions_exact(expressions: Seq<Seq<char>>, old: Post, new: Post, i: usize)
    requires
        expressions.len() <= usize::MAX,
    ensures
        moved_indices(expressions, old, new, expressions.len()).contains(i) <==> i < expressions.len()
            && ({
            let e = expressions[i as int];
            ||| e == "post.title"@ && old.title@ != new.title@
            ||| e == "post.date"@ && old.date@ != new.date@
            ||| e == "post.description"@ && old.description@ != new.description@
            ||| e == "post.slug"@ && old.slug@ != new.slug@
            ||| e == "post.draft"@ && old.draft != new.draft
            ||| e == "post.body"@ && old.body_html@ != new.body_html@
        }),
{
    lemma_moved_lists(expressions, old, new, expressions.len(), i);
}

/// `moved_indices` is strictly increasing.
proof fn lemma_increasing(expressions: Seq<Seq<char>>, old: Post, new: Post, k: nat, a: int, b: int)
    requires
        k <= usize::MAX,
        0 <= a < b < moved_indices(expressions, old, new, k).len(),
    ensures
        moved_indices(expressions, old, new, k)[a] < moved_indices(expressions, old, new, k)[b],
    decreases k,
{
    let before = moved_indices(expressions, old, new, (k - 1) as nat);
    let all = moved_indices(expressions, old, new, k);
    lemma_moved_below(expressions, old, new, (k - 1) as nat);
    assert(all[a] == before[a]);
    if b < before.len() {
        assert(all[b] == before[b]);
        lemma_increasing(expressions, old, new, (k - 1) as nat, a, b);
    } else {
        assert(all[b] == (k - 1) as usize);
        assert(before[a] < k - 1);
    }
}

} // verus!
