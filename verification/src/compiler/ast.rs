//! The parsed form of a `.tri` component, and its mathematical view.
use vstd::prelude::*;
use vstd::string::{StrSliceExecFns, StringExecFns, StringSliceAdditionalSpecFns};
use crate::text::{
    chars_of, decimal, decimal_string, line_at, line_of, push_spaces, right_align, spaces,
};

verus! {

/// A byte range in the source file.
#[derive(Debug, Clone, Copy, PartialEq, Eq, Default)]
pub struct Span {
    /// First byte.
    pub start: usize,
    /// One past the last byte.
    pub end: usize,
}

impl Span {
    /// A span covering `start..end`.
    pub fn new(start: usize, end: usize) -> (r: Span)
        ensures
            r == (Span { start, end }),
    {
        Span { start, end }
    }

    /// The 1-indexed line and column of this span's start within `source`.
    ///
    /// The line counts the newlines before the start; the column counts the chars between the
    /// last of them and the start. A start past the end of `source` is clamped to the end.
    pub fn line_col(&self, source: &str) -> (r: (usize, usize))
        requires
            source.spec_bytes().len() < usize::MAX,
        ensures
            ({
                let before = source.spec_bytes().take(min_int(self.start as int, source.spec_bytes().len() as int));
                &&& r.0 as int == 1 + newlines(before)
                &&& r.1 as int == 1 + chars_since_newline(before)
            }),
    {
        let bytes = source.as_bytes();
        let limit = if self.start < bytes.len() { self.start } else { bytes.len() };
        let mut line: usize = 1;
        let mut col: usize = 1;
        let mut i: usize = 0;
        while i < limit
            invariant
                limit <= bytes@.len() < usize::MAX,
                i <= limit,
                line == 1 + newlines(bytes@.take(i as int)),
                col == 1 + chars_since_newline(bytes@.take(i as int)),
                line <= i + 1,
                col <= i + 1,
            decreases limit - i,
        {
            assert(bytes@.take(i + 1).drop_last() =~= bytes@.take(i as int));
            if bytes[i] == 10u8 {
                line += 1;
                col = 1;
            } else if !(0x80u8 <= bytes[i] && bytes[i] <= 0xbfu8) {
                col += 1;
            }
            i += 1;
        }
        (line, col)
    }
}

/// The smaller of two integers.
pub open spec fn min_int(a: int, b: int) -> int {
    if a <= b { a } else { b }
}

/// How many newline bytes `bytes` holds.
pub open spec fn newlines(bytes: Seq<u8>) -> nat
    decreases bytes.len(),
{
    if bytes.len() == 0 {
        0
    } else {
        newlines(bytes.drop_last()) + if bytes.last() == 10u8 { 1nat } else { 0nat }
    }
}

/// How many chars follow the last newline of `bytes` (all of them when there is none): the
/// bytes that start a char, that is, that are not UTF-8 continuation bytes.
pub open spec fn chars_since_newline(bytes: Seq<u8>) -> nat
    decreases bytes.len(),
{
    if bytes.len() == 0 {
        0
    } else if bytes.last() == 10u8 {
        0
    } else {
        chars_since_newline(bytes.drop_last()) + if 0x80u8 <= bytes.last() && bytes.last()
            <= 0xbfu8 {
            0nat
        } else {
            1nat
        }
    }
}

/// A node of the parsed template.
#[derive(Debug, PartialEq, Eq)]
pub enum Node {
    /// Literal markup.
    Text {
        /// The literal text.
        value: String,
        /// Where it came from.
        span: Span,
    },
    /// `{ expr }`: interpolated and escaped.
    Expr {
        /// Source text of the expression, verbatim.
        source: String,
        /// Where it came from.
        span: Span,
        /// True when the interpolation sits inside a tag, and therefore inside an attribute value.
        attribute: bool,
    },
    /// `{#if cond}` … `{:else}` … `{/if}`
    If {
        /// Source of the condition.
        cond: String,
        /// Rendered when the condition holds.
        then: Vec<Node>,
        /// Rendered otherwise; empty when there is no `{:else}`.
        otherwise: Vec<Node>,
        /// Span of the opening tag.
        span: Span,
    },
    /// `{#for binding in seq}` … `{/for}`
    For {
        /// The loop variable.
        binding: String,
        /// Source of the sequence expression.
        seq: String,
        /// The loop body.
        body: Vec<Node>,
        /// Span of the opening tag.
        span: Span,
    },
}

/// The view of a [`Node`]: its strings as char sequences, its children as sequences.
pub enum NodeV {
    Text { value: Seq<char>, span: Span },
    Expr { source: Seq<char>, span: Span, attribute: bool },
    If { cond: Seq<char>, then: Seq<NodeV>, otherwise: Seq<NodeV>, span: Span },
    For { binding: Seq<char>, seq: Seq<char>, body: Seq<NodeV>, span: Span },
}

/// The view of one node.
pub open spec fn view_node(n: Node) -> NodeV
    decreases n, 0nat,
{
    match n {
        Node::Text { value, span } => NodeV::Text { value: value@, span },
        Node::Expr { source, span, attribute } => NodeV::Expr { source: source@, span, attribute },
        Node::If { cond, then, otherwise, span } => NodeV::If {
            cond: cond@,
            then: view_prefix(then@, then@.len()),
            otherwise: view_prefix(otherwise@, otherwise@.len()),
            span,
        },
        Node::For { binding, seq, body, span } => NodeV::For {
            binding: binding@,
            seq: seq@,
            body: view_prefix(body@, body@.len()),
            span,
        },
    }
}

/// The views of the first `k` nodes of `ns`.
pub open spec fn view_prefix(ns: Seq<Node>, k: nat) -> Seq<NodeV>
    decreases ns, k,
{
    if k == 0 || k > ns.len() {
        seq![]
    } else {
        view_prefix(ns, (k - 1) as nat).push(view_node(ns[k - 1]))
    }
}

/// The views of a sequence of nodes.
pub open spec fn view_nodes(ns: Seq<Node>) -> Seq<NodeV> {
    view_prefix(ns, ns.len())
}

impl View for Node {
    type V = NodeV;

    open spec fn view(&self) -> NodeV {
        view_node(*self)
    }
}

/// `view_nodes` maps each node to its view.
pub proof fn lemma_view_prefix(ns: Seq<Node>, k: nat)
    requires
        k <= ns.len(),
    ensures
        view_prefix(ns, k).len() == k,
        forall|i: int| 0 <= i < k ==> #[trigger] view_prefix(ns, k)[i] == view_node(ns[i]),
    decreases k,
{
    if k > 0 {
        lemma_view_prefix(ns, (k - 1) as nat);
    }
}

/// Pushing a node pushes its view.
pub proof fn lemma_view_nodes_push(ns: Seq<Node>, n: Node)
    ensures
        view_nodes(ns.push(n)) == view_nodes(ns).push(view_node(n)),
{
    lemma_view_prefix(ns.push(n), ns.len() + 1);
    lemma_view_prefix(ns, ns.len());
    assert(view_nodes(ns.push(n)) =~= view_nodes(ns).push(view_node(n)));
}

/// A parsed `.tri` file.
#[derive(Debug, PartialEq, Eq, Default)]
pub struct Document {
    /// Raw frontmatter source, if the file opened with a `---` fence.
    pub frontmatter: Option<String>,
    /// Span of the frontmatter body.
    pub frontmatter_span: Option<Span>,
    /// The template body.
    pub nodes: Vec<Node>,
}

/// The view of a [`Document`].
pub struct DocumentV {
    pub frontmatter: Option<Seq<char>>,
    pub frontmatter_span: Option<Span>,
    pub nodes: Seq<NodeV>,
}

impl View for Document {
    type V = DocumentV;

    open spec fn view(&self) -> DocumentV {
        DocumentV {
            frontmatter: match self.frontmatter {
                Some(s) => Some(s@),
                None => None,
            },
            frontmatter_span: self.frontmatter_span,
            nodes: view_nodes(self.nodes@),
        }
    }
}

/// What went wrong while parsing.
#[derive(Debug, Clone, PartialEq, Eq)]
pub enum ParseErrorKind {
    /// A `{` was opened and never closed.
    UnclosedExpression,
    /// A block was opened and never closed.
    UnclosedBlock(&'static str),
    /// A closing tag with no matching opening tag.
    UnexpectedClose(String),
    /// `{:else}` outside an `{#if}`.
    StrayElse,
    /// A `{#for}` without `in`.
    MalformedFor,
    /// An empty `{}`.
    EmptyExpression,
    /// The frontmatter fence was opened and never closed.
    UnclosedFrontmatter,
    /// A block name we do not know.
    UnknownBlock(String),
    /// An interpolation in an attribute value that is not quoted.
    UnquotedAttribute,
}

/// The view of a [`ParseErrorKind`]: names as char sequences.
pub enum KindV {
    UnclosedExpression,
    UnclosedBlock(Seq<char>),
    UnexpectedClose(Seq<char>),
    StrayElse,
    MalformedFor,
    EmptyExpression,
    UnclosedFrontmatter,
    UnknownBlock(Seq<char>),
    UnquotedAttribute,
}

impl View for ParseErrorKind {
    type V = KindV;

    open spec fn view(&self) -> KindV {
        match self {
            ParseErrorKind::UnclosedExpression => KindV::UnclosedExpression,
            ParseErrorKind::UnclosedBlock(n) => KindV::UnclosedBlock(n@),
            ParseErrorKind::UnexpectedClose(n) => KindV::UnexpectedClose(n@),
            ParseErrorKind::StrayElse => KindV::StrayElse,
            ParseErrorKind::MalformedFor => KindV::MalformedFor,
            ParseErrorKind::EmptyExpression => KindV::EmptyExpression,
            ParseErrorKind::UnclosedFrontmatter => KindV::UnclosedFrontmatter,
            ParseErrorKind::UnknownBlock(n) => KindV::UnknownBlock(n@),
            ParseErrorKind::UnquotedAttribute => KindV::UnquotedAttribute,
        }
    }
}

/// A parse failure, with the span that caused it.
#[derive(Debug, Clone, PartialEq, Eq)]
pub struct ParseError {
    /// What went wrong.
    pub kind: ParseErrorKind,
    /// Where it went wrong.
    pub span: Span,
}

/// The view of a [`ParseError`].
pub struct ParseErrorV {
    pub kind: KindV,
    pub span: Span,
}

impl View for ParseError {
    type V = ParseErrorV;

    open spec fn view(&self) -> ParseErrorV {
        ParseErrorV { kind: self.kind@, span: self.span }
    }
}


/// What a parse error says, in words.
pub open spec fn kind_message(k: KindV) -> Seq<char> {
    match k {
        KindV::UnclosedExpression => "this `{` is never closed"@,
        KindV::UnclosedBlock(n) => "`{#"@ + n + "}` is never closed"@,
        KindV::UnexpectedClose(n) => "`{/"@ + n + "}` closes a block that was never opened"@,
        KindV::StrayElse => "`{:else}` outside an `{#if}`"@,
        KindV::MalformedFor => "expected `{#for <name> in <expression>}`"@,
        KindV::EmptyExpression => "empty expression"@,
        KindV::UnclosedFrontmatter => "frontmatter is never closed with `---`"@,
        KindV::UnknownBlock(n) => "unknown block `{#"@ + n + "}`; expected one of `if`, `for`"@,
        KindV::UnquotedAttribute => "interpolation into an unquoted attribute value; wrap the value in quotes"@,
    }
}

impl ParseErrorKind {
    /// What went wrong, in words.
    pub fn message(&self) -> (r: String)
        ensures
            r@ == kind_message(self@),
    {
        let mut out = String::new();
        match self {
            ParseErrorKind::UnclosedExpression => out.append("this `{` is never closed"),
            ParseErrorKind::UnclosedBlock(name) => {
                out.append("`{#");
                out.append(name);
                out.append("}` is never closed");
            },
            ParseErrorKind::UnexpectedClose(name) => {
                out.append("`{/");
                out.append(name.as_str());
                out.append("}` closes a block that was never opened");
            },
            ParseErrorKind::StrayElse => out.append("`{:else}` outside an `{#if}`"),
            ParseErrorKind::MalformedFor => out.append("expected `{#for <name> in <expression>}`"),
            ParseErrorKind::EmptyExpression => out.append("empty expression"),
            ParseErrorKind::UnclosedFrontmatter => out.append("frontmatter is never closed with `---`"),
            ParseErrorKind::UnknownBlock(name) => {
                out.append("unknown block `{#");
                out.append(name.as_str());
                out.append("}`; expected one of `if`, `for`");
            },
            ParseErrorKind::UnquotedAttribute => out.append(
                "interpolation into an unquoted attribute value; wrap the value in quotes",
            ),
        }
        assert(out@ =~= kind_message(self@));
        out
    }
}

/// The report of error `e` against `source` in the file at `path`: the message, the location,
/// the offending line, and a caret under the column.
pub open spec fn spec_report(e: ParseErrorV, path: Seq<char>, source: &str) -> Seq<char> {
    let before = source.spec_bytes().take(min_int(e.span.start as int, source.spec_bytes().len() as int));
    let line = 1 + newlines(before);
    let col = 1 + chars_since_newline(before);
    "error: "@ + kind_message(e.kind) + "\n  ┌─ "@ + path + ":"@ + decimal(line) + ":"@ + decimal(col)
        + "\n  │\n"@ + right_align(decimal(line), 3) + " │ "@ + line_at(source@, 0, (line - 1) as nat)
        + "\n  │ "@ + spaces(col) + "^\n"@
}

impl ParseError {
    /// What went wrong, in words: the message of its kind.
    pub fn message(&self) -> (r: String)
        ensures
            r@ == kind_message(self@.kind),
    {
        self.kind.message()
    }

    /// Render the error against its source, the way the command line shows it.
    pub fn report(&self, path: &str, source: &str) -> (r: String)
        requires
            source.spec_bytes().len() < usize::MAX,
        ensures
            r@ == spec_report(self@, path@, source),
    {
        let (line, col) = self.span.line_col(source);
        let cs = chars_of(source);
        let text = line_of(&cs, 0, line - 1);
        let line_digits = decimal_string(line as u64);
        let col_digits = decimal_string(col as u64);
        let mut out = String::new();
        out.append("error: ");
        let message = self.kind.message();
        out.append(message.as_str());
        out.append("\n  ┌─ ");
        out.append(path);
        out.append(":");
        out.append(line_digits.as_str());
        out.append(":");
        out.append(col_digits.as_str());
        out.append("\n  │\n");
        let width = line_digits.as_str().unicode_len();
        if width < 3 {
            push_spaces(&mut out, 3 - width);
        }
        out.append(line_digits.as_str());
        out.append(" │ ");
        out.append(text.as_str());
        out.append("\n  │ ");
        push_spaces(&mut out, col);
        out.append("^\n");
        assert(out@ =~= spec_report(self@, path@, source));
        out
    }
}

} // verus!
