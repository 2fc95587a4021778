//! The benchmark fixture: a deterministic blog.
//!
//! Generated rather than committed: a seeded generator gives the same bytes on every machine,
//! which is what a benchmark's inputs must do.
use vstd::prelude::*;
use crate::content::post::{closes_at, closing_fence, fence, lemma_first_close, split_document};
use crate::text::{chars_of, decimal, push_char, push_decimal, push_text};

verus! {

/// The page template the benchmark renders. Markup plus expressions, no components yet.
pub const PAGE_TEMPLATE: &'static str = r#"<!doctype html>
<html lang="en">
<head><title>{ post.title }</title><meta name="description" content="{ post.description }"></head>
<body>
<article>
<h1>{ post.title }</h1>
<p class="meta">{ post.date }</p>
{#if post.draft}<p class="draft">Draft</p>{/if}
{ post.body }
</article>
</body>
</html>
"#;

/// The index template, which loops over every post.
pub const INDEX_TEMPLATE: &'static str = r#"<!doctype html>
<html lang="en">
<head><title>{ site.title }</title></head>
<body>
<h1>{ site.title }</h1>
<ul>
{#for post in posts}<li><a href="/blog/{ post.slug }/">{ post.title }</a> <time>{ post.date }</time></li>{/for}
</ul>
</body>
</html>
"#;

/// How many words the generator draws from.
pub const WORD_COUNT: usize = 24;

/// Word `i` of the generator's vocabulary.
pub open spec fn word_text(i: int) -> Seq<char> {
    if i == 0 {
        "harbour"@
    } else if i == 1 {
        "compiler"@
    } else if i == 2 {
        "descriptor"@
    } else if i == 3 {
        "island"@
    } else if i == 4 {
        "render"@
    } else if i == 5 {
        "content"@
    } else if i == 6 {
        "digest"@
    } else if i == 7 {
        "store"@
    } else if i == 8 {
        "template"@
    } else if i == 9 {
        "frame"@
    } else if i == 10 {
        "ladder"@
    } else if i == 11 {
        "budget"@
    } else if i == 12 {
        "provenance"@
    } else if i == 13 {
        "determinism"@
    } else if i == 14 {
        "cache"@
    } else if i == 15 {
        "adapter"@
    } else if i == 16 {
        "markdown"@
    } else if i == 17 {
        "collection"@
    } else if i == 18 {
        "loader"@
    } else if i == 19 {
        "sink"@
    } else if i == 20 {
        "runtime"@
    } else if i == 21 {
        "wasm"@
    } else if i == 22 {
        "typed"@
    } else {
        "static"@
    }
}

/// Word `i` of the vocabulary.
fn word_at(i: usize) -> (r: &'static str)
    requires
        i < WORD_COUNT,
    ensures
        r@ == word_text(i as int),
{
    match i {
        0 => "harbour",
        1 => "compiler",
        2 => "descriptor",
        3 => "island",
        4 => "render",
        5 => "content",
        6 => "digest",
        7 => "store",
        8 => "template",
        9 => "frame",
        10 => "ladder",
        11 => "budget",
        12 => "provenance",
        13 => "determinism",
        14 => "cache",
        15 => "adapter",
        16 => "markdown",
        17 => "collection",
        18 => "loader",
        19 => "sink",
        20 => "runtime",
        21 => "wasm",
        22 => "typed",
        _ => "static",
    }
}

/// One step of the generator: a 64-bit linear congruential step, wrapping.
pub open spec fn lcg_step(s: u64) -> u64 {
    vstd::wrapping::u64_specs::wrapping_add(
        vstd::wrapping::u64_specs::wrapping_mul(s, 6_364_136_223_846_793_005u64),
        1_442_695_040_888_963_407u64,
    )
}

/// The state `n` steps after `s`.
pub open spec fn advance(s: u64, n: nat) -> u64
    decreases n,
{
    if n == 0 {
        s
    } else {
        lcg_step(advance(s, (n - 1) as nat))
    }
}

/// The word a state selects: its high bits, reduced to the vocabulary.
pub open spec fn word_of_state(s: u64) -> Seq<char> {
    word_text(((s >> 33u64) % 24) as int)
}

/// Word number `k` (from 0) drawn by a generator seeded with `s`.
pub open spec fn pick(s: u64, k: nat) -> Seq<char> {
    word_of_state(advance(s, k + 1))
}

/// The uppercase mapping of `c`, as `char::to_uppercase` gives it: one or more chars.
pub uninterp spec fn uppercase(c: char) -> Seq<char>;

/// `char::to_uppercase`, collected into a `String`.
///
/// Trusted: the mapping is Unicode's, a function of `c` alone; the contract names it rather than
/// restating the tables. Of ASCII it states what std documents: a lowercase letter maps to its
/// uppercase letter, 32 code points below, and every other ASCII char has no other uppercase
/// form and maps to itself.
#[verifier::external_body]
fn uppercase_of(c: char) -> (r: String)
    ensures
        r@ == uppercase(c),
        'a' <= c <= 'z' ==> r@ == seq![((c as int) - 32) as char],
        (c as int) < 128 && !('a' <= c <= 'z') ==> r@ == seq![c],
{
    c.to_uppercase().collect::<String>()
}

/// `w` with its first char in upper case.
pub open spec fn capitalised(w: Seq<char>) -> Seq<char> {
    if w.len() == 0 {
        Seq::empty()
    } else {
        upper(w[0]) + w.drop_first()
    }
}

/// The uppercase form of `c`: for ASCII, the letter 32 code points below a lowercase letter
/// and any other char itself; beyond ASCII, Unicode's mapping.
pub open spec fn upper(c: char) -> Seq<char> {
    if 'a' <= c <= 'z' {
        seq![((c as int) - 32) as char]
    } else if (c as int) < 128 {
        seq![c]
    } else {
        uppercase(c)
    }
}

/// `word` with its first char in upper case.
pub fn capitalise(word: &str) -> (r: String)
    ensures
        r@ == capitalised(word@),
{
    let cs = chars_of(word);
    if cs.len() == 0 {
        return String::new();
    }
    let mut out = uppercase_of(cs[0]);
    let mut i: usize = 1;
    let ghost head = out@;
    while i < cs.len()
        invariant
            1 <= i <= cs@.len(),
            cs@ == word@,
            out@ == head + cs@.subrange(1, i as int),
        decreases cs@.len() - i,
    {
        push_char(&mut out, cs[i]);
        i += 1;
        assert(out@ =~= head + cs@.subrange(1, i as int));
    }
    assert(cs@.subrange(1, cs@.len() as int) =~= word@.drop_first());
    out
}

/// The deterministic generator behind the fixture. No `rand` dependency, and identical on
/// every machine.
struct Lcg(u64);

impl Lcg {
    /// Step, and return the high bits of the new state.
    fn next(&mut self) -> (r: u64)
        ensures
            final(self).0 == lcg_step(old(self).0),
            r == lcg_step(old(self).0) >> 33u64,
    {
        self.0 = self.0.wrapping_mul(6_364_136_223_846_793_005).wrapping_add(1_442_695_040_888_963_407);
        self.0 >> 33
    }

    /// Step, and return the word the new state selects.
    fn word(&mut self) -> (r: &'static str)
        ensures
            final(self).0 == lcg_step(old(self).0),
            r@ == word_of_state(lcg_step(old(self).0)),
    {
        let v = self.next();
        word_at((v % 24) as usize)
    }
}

/// Words `first ..= first + n - 1` drawn from `s`, joined with single spaces.
pub open spec fn words(s: u64, first: nat, n: nat) -> Seq<char>
    decreases n,
{
    if n == 0 {
        Seq::empty()
    } else if n == 1 {
        pick(s, first)
    } else {
        words(s, first, (n - 1) as nat) + seq![' '] + pick(s, (first + n - 1) as nat)
    }
}

/// How many words a paragraph has.
#[verifier::inline]
pub open spec fn paragraph_words() -> nat {
    28
}

/// How many words one section draws: a two-word heading and three paragraphs of 28.
#[verifier::inline]
pub open spec fn section_draws() -> nat {
    86
}

/// The first `k` paragraphs of a section whose paragraphs start at draw `first`.
pub open spec fn paragraphs(s: u64, first: nat, k: nat) -> Seq<char>
    decreases k,
{
    if k == 0 {
        Seq::empty()
    } else {
        paragraphs(s, first, (k - 1) as nat) + words(
            s,
            first + paragraph_words() * ((k - 1) as nat),
            paragraph_words(),
        ) + ".\n\n"@
    }
}

/// The code block that the second section carries.
pub open spec fn code_block() -> Seq<char> {
    "```rust\nfn render(sink: &mut dyn Sink) -> Result<()> {\n    sink.raw(\"<p>\")\n}\n```\n\n"@
}

/// Section `i` of the body, whose words start at draw `4 + 86 * i`.
pub open spec fn section(s: u64, i: nat) -> Seq<char> {
    let base = 4 + section_draws() * i;
    "\n## "@ + capitalised(pick(s, base)) + seq![' '] + pick(s, base + 1) + "\n\n"@ + paragraphs(
        s,
        base + 2,
        3,
    ) + if i == 1 {
        code_block()
    } else {
        Seq::empty()
    }
}

/// The first `k` sections of the body.
pub open spec fn sections(s: u64, k: nat) -> Seq<char>
    decreases k,
{
    if k == 0 {
        Seq::empty()
    } else {
        sections(s, (k - 1) as nat) + section(s, (k - 1) as nat)
    }
}

/// `n`, in at least two digits.
pub open spec fn two_digits(n: nat) -> Seq<char> {
    if n < 10 {
        seq!['0'] + decimal(n)
    } else {
        decimal(n)
    }
}

/// The frontmatter lines of fixture post `index`: title, date, description, draft flag, tags.
pub open spec fn frontmatter_lines(index: nat) -> Seq<char> {
    let s = (index + 1) as u64;
    let after_body = 4 + 4 * section_draws();
    "title: "@ + capitalised(pick(s, 0)) + seq![' '] + pick(s, 1) + "\ndate: 2026-"@ + two_digits(
        1 + index % 12,
    ) + seq!['-'] + two_digits(1 + index % 28) + "\ndescription: "@ + capitalised(
        pick(s, after_body),
    ) + seq![' '] + pick(s, after_body + 1) + "\ndraft: false\ntags: ["@ + pick(s, 2) + ", "@
        + pick(s, 3) + seq![']']
}

/// The markdown source of fixture post `index`: its frontmatter between fences, then its body.
pub open spec fn post_text(index: nat) -> Seq<char> {
    "---\n"@ + frontmatter_lines(index) + "\n---\n"@ + sections((index + 1) as u64, 4)
}

/// Every fixture post is a document the loader can split: it opens with the frontmatter fence
/// and closes it again.
pub proof fn lemma_fixture_posts_split(index: nat)
    ensures
        split_document(post_text(index)) is Ok,
{
    reveal_strlit("---\n");
    reveal_strlit("\n---\n");
    let f = frontmatter_lines(index);
    let text = post_text(index);
    assert(text.take(3) =~= fence());
    let rest = text.skip(3);
    let j: int = 1 + f.len() as int;
    assert(rest.subrange(j, j + 4) =~= closing_fence());
    assert(closes_at(rest, j));
    lemma_first_close(rest, 0);
}

/// Draw a word, given the generator has drawn `k` words from `s`.
fn draw(rng: &mut Lcg, Ghost(s): Ghost<u64>, Ghost(k): Ghost<nat>) -> (r: &'static str)
    requires
        old(rng).0 == advance(s, k),
    ensures
        final(rng).0 == advance(s, k + 1),
        r@ == pick(s, k),
{
    rng.word()
}

/// A paragraph: words `first ..` joined with spaces.
fn paragraph(rng: &mut Lcg, Ghost(s): Ghost<u64>, Ghost(first): Ghost<nat>) -> (r: String)
    requires
        old(rng).0 == advance(s, first),
    ensures
        final(rng).0 == advance(s, first + paragraph_words()),
        r@ == words(s, first, paragraph_words()),
{
    let mut out = String::new();
    let w = draw(rng, Ghost(s), Ghost(first));
    push_text(&mut out, w);
    let mut n: usize = 1;
    while n < 28
        invariant
            1 <= n <= 28,
            rng.0 == advance(s, (first + n) as nat),
            out@ == words(s, first, n as nat),
        decreases 28 - n,
    {
        let w = draw(rng, Ghost(s), Ghost((first + n) as nat));
        push_char(&mut out, ' ');
        push_text(&mut out, w);
        n += 1;
    }
    out
}

/// Section `i` of the body.
fn write_section(out: &mut String, rng: &mut Lcg, Ghost(s): Ghost<u64>, i: usize)
    requires
        i < 4,
        old(rng).0 == advance(s, (4 + section_draws() * i) as nat),
    ensures
        final(rng).0 == advance(s, (4 + section_draws() * (i + 1)) as nat),
        final(out)@ == old(out)@ + section(s, i as nat),
{
    let ghost base: nat = (4 + section_draws() * i) as nat;
    let ghost start = out@;
    push_text(out, "\n## ");
    let first = draw(rng, Ghost(s), Ghost(base));
    let heading = capitalise(first);
    push_text(out, heading.as_str());
    push_char(out, ' ');
    let second = draw(rng, Ghost(s), Ghost(base + 1));
    push_text(out, second);
    push_text(out, "\n\n");
    let ghost head = out@;
    let mut p: usize = 0;
    while p < 3
        invariant
            p <= 3,
            rng.0 == advance(s, (base + 2 + paragraph_words() * p) as nat),
            out@ == head + paragraphs(s, base + 2, p as nat),
        decreases 3 - p,
    {
        let text = paragraph(rng, Ghost(s), Ghost((base + 2 + paragraph_words() * p) as nat));
        push_text(out, text.as_str());
        push_text(out, ".\n\n");
        p += 1;
        assert(out@ =~= head + paragraphs(s, base + 2, p as nat));
    }
    let ghost body = out@;
    if i == 1 {
        push_text(
            out,
            "```rust\nfn render(sink: &mut dyn Sink) -> Result<()> {\n    sink.raw(\"<p>\")\n}\n```\n\n",
        );
    }
    proof {
        reveal_strlit("\n## ");
        reveal_strlit("\n\n");
        assert(head =~= start + "\n## "@ + capitalised(pick(s, base)) + seq![' '] + pick(s, base + 1)
            + "\n\n"@);
        assert(out@ =~= body + if i == 1 {
            code_block()
        } else {
            Seq::empty()
        });
        assert(out@ =~= start + section(s, i as nat));
    }
}

/// Append `n` in at least two digits.
fn push_two_digits(out: &mut String, n: u64)
    ensures
        final(out)@ == old(out)@ + two_digits(n as nat),
{
    if n < 10 {
        push_char(out, '0');
    }
    push_decimal(out, n);
    assert(final(out)@ =~= old(out)@ + two_digits(n as nat));
}

/// The markdown source of post `index`. The same bytes for the same index, always.
pub fn post(index: usize) -> (r: String)
    requires
        index < u64::MAX,
    ensures
        r@ == post_text(index as nat),
{
    let ghost s = (index + 1) as u64;
    let mut rng = Lcg(index as u64 + 1);
    let mut front = String::new();
    push_text(&mut front, "title: ");
    let first = draw(&mut rng, Ghost(s), Ghost(0));
    let title = capitalise(first);
    push_text(&mut front, title.as_str());
    push_char(&mut front, ' ');
    let second = draw(&mut rng, Ghost(s), Ghost(1));
    push_text(&mut front, second);
    push_text(&mut front, "\ndate: 2026-");
    push_two_digits(&mut front, 1 + (index % 12) as u64);
    push_char(&mut front, '-');
    push_two_digits(&mut front, 1 + (index % 28) as u64);
    let tag_a = draw(&mut rng, Ghost(s), Ghost(2));
    let tag_b = draw(&mut rng, Ghost(s), Ghost(3));
    let mut body = String::new();
    let mut i: usize = 0;
    while i < 4
        invariant
            i <= 4,
            rng.0 == advance(s, (4 + section_draws() * i) as nat),
            body@ == sections(s, i as nat),
        decreases 4 - i,
    {
        write_section(&mut body, &mut rng, Ghost(s), i);
        i += 1;
    }
    push_text(&mut front, "\ndescription: ");
    let third = draw(&mut rng, Ghost(s), Ghost(4 + 4 * section_draws()));
    let described = capitalise(third);
    push_text(&mut front, described.as_str());
    push_char(&mut front, ' ');
    let fourth = draw(&mut rng, Ghost(s), Ghost(5 + 4 * section_draws()));
    push_text(&mut front, fourth);
    push_text(&mut front, "\ndraft: false\ntags: [");
    push_text(&mut front, tag_a);
    push_text(&mut front, ", ");
    push_text(&mut front, tag_b);
    push_char(&mut front, ']');
    assert(front@ =~= frontmatter_lines(index as nat));
    let mut out = String::new();
    push_text(&mut out, "---\n");
    push_text(&mut out, front.as_str());
    push_text(&mut out, "\n---\n");
    push_text(&mut out, body.as_str());
    assert(out@ =~= post_text(index as nat));
    out
}

/// `digits` padded with zeros on the left to at least `width` chars.
pub open spec fn zero_padded(digits: Seq<char>, width: nat) -> Seq<char> {
    if digits.len() >= width {
        digits
    } else {
        Seq::new((width - digits.len()) as nat, |i: int| '0') + digits
    }
}

/// The file name of fixture post `index`: `post-`, the index in at least four digits, `.md`.
pub open spec fn post_file(index: nat) -> Seq<char> {
    "post-"@ + zero_padded(decimal(index), 4) + ".md"@
}

/// The file name that fixture post `index` is written to.
pub fn post_file_name(index: usize) -> (r: String)
    ensures
        r@ == post_file(index as nat),
{
    let digits = crate::text::decimal_string(index as u64);
    let mut out = String::new();
    push_text(&mut out, "post-");
    let n = digits.as_str().unicode_len();
    let mut k: usize = n;
    let ghost base = out@;
    while k < 4
        invariant
            n <= k <= 4 || (n == k && k >= 4),
            n == digits@.len(),
            out@ == base + Seq::new((k - n) as nat, |i: int| '0'),
        decreases 4 - k,
    {
        push_char(&mut out, '0');
        k += 1;
        assert(out@ =~= base + Seq::new((k - n) as nat, |i: int| '0'));
    }
    push_text(&mut out, digits.as_str());
    push_text(&mut out, ".md");
    assert(out@ =~= post_file(index as nat));
    out
}

/// The twelfth char of a fixture post is the first of its title: the uppercase form of the
/// first letter of the first word drawn.
proof fn lemma_title_initial(index: nat)
    requires
        pick((index + 1) as u64, 0).len() > 0,
        upper(pick((index + 1) as u64, 0)[0]).len() > 0,
    ensures
        post_text(index)[11] == upper(pick((index + 1) as u64, 0)[0])[0],
{
    reveal_strlit("---\n");
    reveal_strlit("title: ");
    let w = pick((index + 1) as u64, 0);
    let f = frontmatter_lines(index);
    let cap = capitalised(w);
    let head = "title: "@ + cap;
    assert(cap[0] == upper(w[0])[0]);
    assert(head[7] == cap[0]);
    assert(f.len() > 7 && f[7] == head[7]) by {
        assert(f =~= head + f.skip(head.len() as int));
    }
    let a = "---\n"@ + f;
    assert(a[11] == f[7]);
    let text = post_text(index);
    assert(text =~= a + text.skip(a.len() as int));
}

/// The first word a generator seeded with 8 draws.
proof fn lemma_first_word_of_8()
    ensures
        pick(8u64, 0) == "render"@,
{
    assert((15462296684244204215u64 >> 33u64) % 24 == 4) by (bit_vector);
    assert(lcg_step(8u64) == 15462296684244204215u64) by (nonlinear_arith);
    assert(advance(8u64, 1) == lcg_step(advance(8u64, 0)));
}

/// The first word a generator seeded with 9 draws.
proof fn lemma_first_word_of_9()
    ensures
        pick(9u64, 0) == "budget"@,
{
    assert((3379688834381445604u64 >> 33u64) % 24 == 11) by (bit_vector);
    assert(lcg_step(9u64) == 3379688834381445604u64) by (nonlinear_arith);
    assert(advance(9u64, 1) == lcg_step(advance(9u64, 0)));
}

/// Posts 7 and 8 of the fixture differ: their titles open with different letters.
pub proof fn lemma_neighbouring_posts_differ()
    ensures
        post_text(7) != post_text(8),
{
    reveal_strlit("render");
    reveal_strlit("budget");
    lemma_first_word_of_8();
    lemma_first_word_of_9();
    lemma_title_initial(7);
    lemma_title_initial(8);
}

} // verus!
