//! Parse a `.tri` source file into a [`Document`].
//!
//! The source is scanned as UTF-8 bytes; every delimiter is ASCII, spans are byte offsets, and the
//! text between delimiters is decoded back into chars. The `spec_*` functions below define the
//! language: each says, for a byte string and a position, what the scanner finds there. The
//! executable parser is proved to compute exactly them, errors included.
use vstd::prelude::*;
use vstd::utf8::*;
use vstd::string::StringSliceAdditionalSpecFns;
use crate::text::{
    chars_of, is_space, is_whitespace, lemma_ascii_boundaries, slice_owned, string_from, text_at,
    trim, trim_bounds, trimmed,
};
use crate::compiler::ast::{
    lemma_view_nodes_push, view_nodes, Document, DocumentV, KindV, Node, NodeV, ParseError,
    ParseErrorKind, ParseErrorV, Span,
};

verus! {

broadcast use vstd::utf8::group_utf8_lib;

/// The block a scan is inside of.
#[derive(Clone, Copy, PartialEq, Eq, Debug)]
pub enum Block {
    If,
    For,
}

/// `if`, as chars.
pub open spec fn word_if() -> Seq<char> {
    seq!['i', 'f']
}

/// `for`, as chars.
pub open spec fn word_for() -> Seq<char> {
    seq!['f', 'o', 'r']
}

/// The name reported for an unclosed block: `for` inside a `{#for}`, `if` otherwise.
pub open spec fn block_name(inside: Option<Block>) -> Seq<char> {
    if inside == Some(Block::For) {
        word_for()
    } else {
        word_if()
    }
}

/// Whether a closing tag named `name` closes the block we are inside of.
pub open spec fn closes(inside: Option<Block>, name: Seq<char>) -> bool {
    match inside {
        Some(Block::If) => name == word_if(),
        Some(Block::For) => name == word_for(),
        None => false,
    }
}

/// An error of `kind` over `start..end`.
pub open spec fn error_at(kind: KindV, start: int, end: int) -> ParseErrorV {
    ParseErrorV { kind, span: Span { start: start as usize, end: end as usize } }
}

/// The value the definitions give on positions that the parser never reaches.
pub open spec fn unreachable_error() -> ParseErrorV {
    error_at(KindV::UnclosedExpression, 0, 0)
}

/// The first index at or after `from` that holds `c`.
pub open spec fn find_byte(b: Seq<u8>, from: int, c: u8) -> Option<int>
    decreases b.len() - from,
{
    if from < 0 || from >= b.len() {
        None
    } else if b[from] == c {
        Some(from)
    } else {
        find_byte(b, from + 1, c)
    }
}

/// Whether the four bytes at `j` are a newline followed by `---`.
pub open spec fn fence_at(b: Seq<u8>, j: int) -> bool {
    &&& 0 <= j
    &&& j + 4 <= b.len()
    &&& b[j] == 10u8
    &&& b[j + 1] == 45u8
    &&& b[j + 2] == 45u8
    &&& b[j + 3] == 45u8
}

/// The first index at or after `from` where a closing frontmatter fence (`\n---`) starts.
pub open spec fn find_fence(b: Seq<u8>, from: int) -> Option<int>
    decreases b.len() - from,
{
    if from < 0 || from + 4 > b.len() {
        None
    } else if fence_at(b, from) {
        Some(from)
    } else {
        find_fence(b, from + 1)
    }
}

/// Scanning from `i` with `depth` braces open, the index of the `}` that closes the outermost
/// one. Braces nest, so an expression may contain braces of its own.
pub open spec fn match_brace(b: Seq<u8>, i: int, depth: nat) -> Option<int>
    decreases b.len() - i,
{
    if i < 0 || i >= b.len() {
        None
    } else if b[i] == 123u8 {
        match_brace(b, i + 1, depth + 1)
    } else if b[i] == 125u8 {
        if depth <= 1 {
            Some(i)
        } else {
            match_brace(b, i + 1, (depth - 1) as nat)
        }
    } else {
        match_brace(b, i + 1, depth)
    }
}

/// `{ … }` at `brace`: the text inside, the span of the whole, and the position after it.
pub open spec fn spec_take_braced(b: Seq<u8>, brace: int) -> Result<(Seq<char>, Span, int), ParseErrorV> {
    match match_brace(b, brace, 0) {
        Some(j) => Ok((text_at(b, brace + 1, j), Span { start: brace as usize, end: (j + 1) as usize }, j + 1)),
        None => Err(error_at(KindV::UnclosedExpression, brace, b.len() as int)),
    }
}

/// The tag at `brace` (`{/name}` or `{:name}`): its trimmed name and the position after it.
pub open spec fn spec_peek_tag(b: Seq<u8>, brace: int) -> Result<(Seq<char>, int), ParseErrorV> {
    match find_byte(b, brace + 2, 125u8) {
        Some(j) => Ok((trim(text_at(b, brace + 2, j)), j + 1)),
        None => Err(error_at(KindV::UnclosedExpression, brace, b.len() as int)),
    }
}

/// `acc` followed by the text `start..end`, unless that text is empty.
pub open spec fn push_text(acc: Seq<NodeV>, b: Seq<u8>, start: int, end: int) -> Seq<NodeV> {
    if end > start {
        acc.push(NodeV::Text { value: text_at(b, start, end), span: Span { start: start as usize, end: end as usize } })
    } else {
        acc
    }
}

/// The interpolation `{ expr }` at `brace`.
pub open spec fn spec_interpolation(b: Seq<u8>, brace: int, attribute: bool) -> Result<(NodeV, int), ParseErrorV> {
    match spec_take_braced(b, brace) {
        Err(e) => Err(e),
        Ok((inner, span, p)) => {
            let source = trim(inner);
            if source.len() == 0 {
                Err(ParseErrorV { kind: KindV::EmptyExpression, span })
            } else {
                Ok((NodeV::Expr { source, span, attribute }, p))
            }
        },
    }
}

/// `s` without a leading `#`.
pub open spec fn strip_hash(s: Seq<char>) -> Seq<char> {
    if s.len() > 0 && s[0] == '#' {
        s.skip(1)
    } else {
        s
    }
}

/// The first index at or after `i` of a white-space char in `s`.
pub open spec fn find_space(s: Seq<char>, i: int) -> Option<int>
    decreases s.len() - i,
{
    if i < 0 || i >= s.len() {
        None
    } else if is_space(s[i]) {
        Some(i)
    } else {
        find_space(s, i + 1)
    }
}

/// `s` split at its first white-space char, which belongs to neither part.
pub open spec fn split_space(s: Seq<char>) -> (Seq<char>, Seq<char>) {
    match find_space(s, 0) {
        Some(i) => (s.take(i), s.skip(i + 1)),
        None => (s, seq![]),
    }
}

/// Whether ` in ` starts at `j`.
pub open spec fn in_at(s: Seq<char>, j: int) -> bool {
    &&& 0 <= j
    &&& j + 4 <= s.len()
    &&& s[j] == ' '
    &&& s[j + 1] == 'i'
    &&& s[j + 2] == 'n'
    &&& s[j + 3] == ' '
}

/// The first index at or after `i` where ` in ` starts.
pub open spec fn find_in(s: Seq<char>, i: int) -> Option<int>
    decreases s.len() - i,
{
    if i < 0 || i + 4 > s.len() {
        None
    } else if in_at(s, i) {
        Some(i)
    } else {
        find_in(s, i + 1)
    }
}

/// Scan nodes from `pos`, with the current text run starting at `text_start`, `in_tag` telling
/// whether the scanner is between `<` and `>`, and `acc` the nodes found so far. The scan ends at
/// the end of input, or, inside a block, at the tag that closes the block or at `{:else}`; the
/// result holds the nodes and the position of that tag.
pub open spec fn spec_scan(
    b: Seq<u8>,
    inside: Option<Block>,
    pos: int,
    text_start: int,
    in_tag: bool,
    acc: Seq<NodeV>,
) -> Result<(Seq<NodeV>, int), ParseErrorV>
    decreases b.len() - pos, 1nat,
{
    if !(0 <= text_start <= pos <= b.len()) {
        Err(unreachable_error())
    } else if pos == b.len() {
        match inside {
            Some(_) => Err(error_at(KindV::UnclosedBlock(block_name(inside)), if pos > 0 { pos - 1 } else { 0 }, pos)),
            None => Ok((push_text(acc, b, text_start, pos), pos)),
        }
    } else if b[pos] != 123u8 {
        let in_tag2 = if b[pos] == 60u8 { true } else if b[pos] == 62u8 { false } else { in_tag };
        spec_scan(b, inside, pos + 1, text_start, in_tag2, acc)
    } else {
        let next: Option<u8> = if pos + 1 < b.len() { Some(b[pos + 1]) } else { None };
        if next == Some(47u8) || next == Some(58u8) {
            match spec_peek_tag(b, pos) {
                Err(e) => Err(e),
                Ok((name, _)) => {
                    let is_close = next == Some(47u8);
                    if is_close && !closes(inside, name) {
                        if inside is None {
                            Err(error_at(KindV::UnexpectedClose(name), pos, pos + 2))
                        } else {
                            Err(error_at(KindV::UnclosedBlock(block_name(inside)), pos, pos + 2))
                        }
                    } else if !is_close && inside != Some(Block::If) {
                        Err(error_at(KindV::StrayElse, pos, pos + 2))
                    } else {
                        Ok((push_text(acc, b, text_start, pos), pos))
                    }
                },
            }
        } else {
            let acc2 = push_text(acc, b, text_start, pos);
            let found = if next == Some(35u8) {
                spec_block(b, pos)
            } else {
                spec_interpolation(b, pos, in_tag)
            };
            match found {
                Err(e) => Err(e),
                Ok((node, p)) => if pos < p <= b.len() {
                    spec_scan(b, inside, p, p, in_tag, acc2.push(node))
                } else {
                    Err(unreachable_error())
                },
            }
        }
    }
}

/// The block `{#name …}` at `brace`, with its body and closing tag.
pub open spec fn spec_block(b: Seq<u8>, brace: int) -> Result<(NodeV, int), ParseErrorV>
    decreases b.len() - brace, 0nat,
{
    if !(0 <= brace < b.len()) {
        Err(unreachable_error())
    } else {
        match spec_take_braced(b, brace) {
            Err(e) => Err(e),
            Ok((inner, span, p1)) => {
                let body = trim(strip_hash(trim(inner)));
                let name = split_space(body).0;
                let rest = split_space(body).1;
                if name == word_if() {
                    let cond = trim(rest);
                    if cond.len() == 0 {
                        Err(ParseErrorV { kind: KindV::EmptyExpression, span })
                    } else if !(brace < p1 <= b.len()) {
                        Err(unreachable_error())
                    } else {
                        match spec_scan(b, Some(Block::If), p1, p1, false, seq![]) {
                            Err(e) => Err(e),
                            Ok((then, p2)) => if !(p1 <= p2 <= b.len()) {
                                Err(unreachable_error())
                            } else {
                                match spec_peek_tag(b, p2) {
                                    Err(e) => Err(e),
                                    Ok((_, t_end)) => if p2 + 1 < b.len() && b[p2 + 1] == 58u8 {
                                        if !(p2 < t_end <= b.len()) {
                                            Err(unreachable_error())
                                        } else {
                                            match spec_scan(b, Some(Block::If), t_end, t_end, false, seq![]) {
                                                Err(e) => Err(e),
                                                Ok((otherwise, p3)) => match spec_peek_tag(b, p3) {
                                                    Err(e) => Err(e),
                                                    Ok((_, end)) => Ok((NodeV::If { cond, then, otherwise, span }, end)),
                                                },
                                            }
                                        }
                                    } else {
                                        Ok((NodeV::If { cond, then, otherwise: seq![], span }, t_end))
                                    },
                                }
                            },
                        }
                    }
                } else if name == word_for() {
                    match find_in(rest, 0) {
                        None => Err(ParseErrorV { kind: KindV::MalformedFor, span }),
                        Some(j) => {
                            let binding = trim(rest.take(j));
                            let seq = trim(rest.skip(j + 4));
                            if binding.len() == 0 || seq.len() == 0 {
                                Err(ParseErrorV { kind: KindV::MalformedFor, span })
                            } else if !(brace < p1 <= b.len()) {
                                Err(unreachable_error())
                            } else {
                                match spec_scan(b, Some(Block::For), p1, p1, false, seq![]) {
                                    Err(e) => Err(e),
                                    Ok((body, p2)) => match spec_peek_tag(b, p2) {
                                        Err(e) => Err(e),
                                        Ok((_, end)) => Ok((NodeV::For { binding, seq, body, span }, end)),
                                    },
                                }
                            }
                        },
                    }
                } else {
                    Err(ParseErrorV { kind: KindV::UnknownBlock(name), span })
                }
            },
        }
    }
}

/// The frontmatter, if the file opens with a `---` fence: its text and span, and the position
/// where the template body starts (the line after the closing fence).
pub open spec fn spec_frontmatter(b: Seq<u8>) -> Result<(Option<(Seq<char>, Span)>, int), ParseErrorV> {
    if !(b.len() >= 3 && b[0] == 45u8 && b[1] == 45u8 && b[2] == 45u8) {
        Ok((None, 0))
    } else {
        match find_byte(b, 3, 10u8) {
            None => Err(error_at(KindV::UnclosedFrontmatter, 0, b.len() as int)),
            Some(o) => match find_fence(b, o + 1) {
                None => Err(error_at(KindV::UnclosedFrontmatter, 0, b.len() as int)),
                Some(j) => {
                    let pos = match find_byte(b, j + 4, 10u8) {
                        Some(nl) => nl + 1,
                        None => b.len() as int,
                    };
                    Ok((Some((text_at(b, o + 1, j), Span { start: (o + 1) as usize, end: j as usize })), pos))
                },
            },
        }
    }
}

/// The document that the bytes `b` of a `.tri` file parse to, or the first error in them.
pub open spec fn spec_parse(b: Seq<u8>) -> Result<DocumentV, ParseErrorV> {
    match spec_frontmatter(b) {
        Err(e) => Err(e),
        Ok((fm, pos)) => match spec_scan(b, None, pos, pos, false, seq![]) {
            Err(e) => Err(e),
            Ok((nodes, _)) => Ok(DocumentV {
                frontmatter: match fm {
                    Some(f) => Some(f.0),
                    None => None,
                },
                frontmatter_span: match fm {
                    Some(f) => Some(f.1),
                    None => None,
                },
                nodes,
            }),
        },
    }
}


/// `Option<usize>` as `Option<int>`.
pub open spec fn opt_int(r: Option<usize>) -> Option<int> {
    match r {
        Some(j) => Some(j as int),
        None => None,
    }
}

fn find_byte_from(b: &[u8], from: usize, c: u8) -> (r: Option<usize>)
    ensures
        opt_int(r) == find_byte(b@, from as int, c),
        r matches Some(j) ==> from <= j < b@.len() && b@[j as int] == c,
{
    let mut i = from;
    while i < b.len() && b[i] != c
        invariant
            from <= i,
            find_byte(b@, i as int, c) == find_byte(b@, from as int, c),
        decreases b@.len() - i,
    {
        i += 1;
    }
    if i < b.len() {
        Some(i)
    } else {
        None
    }
}

fn find_fence_from(b: &[u8], from: usize) -> (r: Option<usize>)
    ensures
        opt_int(r) == find_fence(b@, from as int),
        r matches Some(j) ==> from <= j && fence_at(b@, j as int),
{
    let mut j = from;
    while j < b.len() && b.len() - j >= 4 && !(b[j] == 10u8 && b[j + 1] == 45u8 && b[j + 2]
        == 45u8 && b[j + 3] == 45u8)
        invariant
            from <= j,
            find_fence(b@, j as int) == find_fence(b@, from as int),
        decreases b@.len() - j,
    {
        j += 1;
    }
    if j < b.len() && b.len() - j >= 4 {
        Some(j)
    } else {
        None
    }
}

/// Consume `{ … }` starting at `brace`, tracking nested braces so expressions may contain them.
fn take_braced(source: &str, b: &[u8], brace: usize) -> (r: Result<(String, Span, usize), ParseError>)
    requires
        b@ == source.spec_bytes(),
        brace < b@.len(),
        b@[brace as int] == 123u8,
    ensures
        r matches Ok((s, sp, p)) ==> spec_take_braced(b@, brace as int) == Ok::<_, ParseErrorV>((s@, sp, p as int))
            && brace < p <= b@.len() && is_char_boundary(b@, p as int),
        r matches Err(e) ==> spec_take_braced(b@, brace as int) == Err::<(Seq<char>, Span, int), ParseErrorV>(e@),
{
    let mut depth: usize = 0;
    let mut index = brace;
    while index < b.len()
        invariant
            b@ == source.spec_bytes(),
            brace < b@.len(),
            b@[brace as int] == 123u8,
            brace <= index <= b@.len(),
            depth <= index - brace,
            index == brace ==> depth == 0,
            index > brace ==> depth >= 1,
            match_brace(b@, index as int, depth as nat) == match_brace(b@, brace as int, 0),
        decreases b@.len() - index,
    {
        if b[index] == 123u8 {
            depth += 1;
        } else if b[index] == 125u8 {
            depth -= 1;
            if depth == 0 {
                proof {
                    lemma_ascii_boundaries(b@, brace as int);
                    lemma_ascii_boundaries(b@, index as int);
                }
                let inner = slice_owned(source, brace + 1, index);
                return Ok((inner, Span::new(brace, index + 1), index + 1));
            }
        }
        index += 1;
    }
    Err(ParseError { kind: ParseErrorKind::UnclosedExpression, span: Span::new(brace, source.len()) })
}

/// The name of the tag at `brace` (`{/name}` or `{:name}`), and the position after it.
fn peek_tag(source: &str, b: &[u8], brace: usize) -> (r: Result<(String, usize), ParseError>)
    requires
        b@ == source.spec_bytes(),
        brace + 1 < b@.len(),
        b@[brace + 1] <= 0x7f,
    ensures
        r matches Ok((s, p)) ==> spec_peek_tag(b@, brace as int) == Ok::<_, ParseErrorV>((s@, p as int)) && brace + 2
            < p <= b@.len() && is_char_boundary(b@, p as int),
        r matches Err(e) ==> spec_peek_tag(b@, brace as int) == Err::<(Seq<char>, int), ParseErrorV>(e@),
{
    let n = b.len();
    match find_byte_from(b, brace + 2, 125u8) {
        Some(j) => {
            proof {
                lemma_ascii_boundaries(b@, brace + 1);
                lemma_ascii_boundaries(b@, j as int);
            }
            let raw = slice_owned(source, brace + 2, j);
            let name = trimmed(raw.as_str());
            Ok((name, j + 1))
        },
        None => Err(
            ParseError { kind: ParseErrorKind::UnclosedExpression, span: Span::new(brace, source.len()) },
        ),
    }
}

fn static_name(inside: Option<Block>) -> (r: &'static str)
    ensures
        r@ == block_name(inside),
{
    proof {
        reveal_strlit("for");
        reveal_strlit("if");
        assert("for"@ =~= word_for());
        assert("if"@ =~= word_if());
    }
    match inside {
        Some(Block::For) => "for",
        _ => "if",
    }
}

fn closes_exec(inside: Option<Block>, name: &String) -> (r: bool)
    ensures
        r == closes(inside, name@),
{
    let cs = chars_of(name.as_str());
    match inside {
        Some(Block::If) => {
            let r = cs.len() == 2 && cs[0] == 'i' && cs[1] == 'f';
            if r {
                assert(cs@ =~= word_if());
            }
            r
        },
        Some(Block::For) => {
            let r = cs.len() == 3 && cs[0] == 'f' && cs[1] == 'o' && cs[2] == 'r';
            if r {
                assert(cs@ =~= word_for());
            }
            r
        },
        None => false,
    }
}

fn push_text_node(nodes: &mut Vec<Node>, source: &str, b: &[u8], start: usize, end: usize)
    requires
        b@ == source.spec_bytes(),
        start <= end <= b@.len(),
        is_char_boundary(b@, start as int),
        is_char_boundary(b@, end as int),
    ensures
        view_nodes(final(nodes)@) == push_text(view_nodes(old(nodes)@), b@, start as int, end as int),
{
    if end > start {
        let value = slice_owned(source, start, end);
        nodes.push(Node::Text { value, span: Span::new(start, end) });
        proof {
            lemma_view_nodes_push(old(nodes)@, nodes@.last());
            assert(nodes@ == old(nodes)@.push(nodes@.last()));
        }
    }
}

/// The interpolation `{ expr }` at `brace`.
fn interpolation(source: &str, b: &[u8], brace: usize, attribute: bool) -> (r: Result<(Node, usize), ParseError>)
    requires
        b@ == source.spec_bytes(),
        brace < b@.len(),
        b@[brace as int] == 123u8,
    ensures
        r matches Ok((n, p)) ==> spec_interpolation(b@, brace as int, attribute) == Ok::<_, ParseErrorV>((n@, p as int))
            && brace < p <= b@.len() && is_char_boundary(b@, p as int),
        r matches Err(e) ==> spec_interpolation(b@, brace as int, attribute) == Err::<(NodeV, int), ParseErrorV>(e@),
{
    let (inner, span, p) = match take_braced(source, b, brace) {
        Ok(t) => t,
        Err(e) => return Err(e),
    };
    let text = trimmed(inner.as_str());
    if text.as_str().is_empty() {
        return Err(ParseError { kind: ParseErrorKind::EmptyExpression, span });
    }
    Ok((Node::Expr { source: text, span, attribute }, p))
}


/// Scan nodes from `start` until the end of input or, inside a block, until the tag that ends it.
fn scan(source: &str, b: &[u8], inside: Option<Block>, start: usize) -> (r: Result<(Vec<Node>, usize), ParseError>)
    requires
        b@ == source.spec_bytes(),
        start <= b@.len(),
        is_char_boundary(b@, start as int),
    ensures
        r matches Ok((ns, p)) ==> {
            &&& spec_scan(b@, inside, start as int, start as int, false, seq![])
                == Ok::<_, ParseErrorV>((view_nodes(ns@), p as int))
            &&& start <= p <= b@.len()
            &&& inside is Some ==> p + 1 < b@.len() && b@[p as int] == 123u8 && (b@[p + 1] == 47u8
                || b@[p + 1] == 58u8)
        },
        r matches Err(e) ==> spec_scan(b@, inside, start as int, start as int, false, seq![])
            == Err::<(Seq<NodeV>, int), ParseErrorV>(e@),
    decreases b@.len() - start, 2nat,
{
    let n = b.len();
    let mut nodes: Vec<Node> = Vec::new();
    let mut text_start = start;
    let mut in_tag = false;
    let mut pos = start;
    let ghost goal = spec_scan(b@, inside, start as int, start as int, false, seq![]);
    assert(view_nodes(nodes@) =~= Seq::<NodeV>::empty());
    while pos < n
        invariant
            n == b@.len(),
            b@ == source.spec_bytes(),
            start <= text_start <= pos <= n,
            is_char_boundary(b@, text_start as int),
            spec_scan(b@, inside, pos as int, text_start as int, in_tag, view_nodes(nodes@)) == goal,
            goal == spec_scan(b@, inside, start as int, start as int, false, seq![]),
        decreases n - pos,
    {
        let c = b[pos];
        if c != 123u8 {
            if c == 60u8 {
                in_tag = true;
            } else if c == 62u8 {
                in_tag = false;
            }
            pos += 1;
            continue ;
        }
        let brace = pos;
        proof {
            lemma_ascii_boundaries(b@, brace as int);
        }
        if brace + 1 < n && (b[brace + 1] == 47u8 || b[brace + 1] == 58u8) {
            let is_close = b[brace + 1] == 47u8;
            let (name, _end) = match peek_tag(source, b, brace) {
                Ok(t) => t,
                Err(e) => return Err(e),
            };
            if is_close && !closes_exec(inside, &name) {
                match inside {
                    None => {
                        return Err(
                            ParseError {
                                kind: ParseErrorKind::UnexpectedClose(name),
                                span: Span::new(brace, brace + 2),
                            },
                        );
                    },
                    Some(_) => {
                        return Err(
                            ParseError {
                                kind: ParseErrorKind::UnclosedBlock(static_name(inside)),
                                span: Span::new(brace, brace + 2),
                            },
                        );
                    },
                }
            }
            let in_if = match inside {
                Some(Block::If) => true,
                _ => false,
            };
            if !is_close && !in_if {
                return Err(ParseError { kind: ParseErrorKind::StrayElse, span: Span::new(brace, brace + 2) });
            }
            push_text_node(&mut nodes, source, b, text_start, brace);
            return Ok((nodes, brace));
        }
        push_text_node(&mut nodes, source, b, text_start, brace);
        let found = if brace + 1 < n && b[brace + 1] == 35u8 {
            block(source, b, brace)
        } else {
            interpolation(source, b, brace, in_tag)
        };
        match found {
            Err(e) => return Err(e),
            Ok((node, p)) => {
                let ghost before = nodes@;
                nodes.push(node);
                proof {
                    lemma_view_nodes_push(before, nodes@.last());
                    assert(nodes@ == before.push(nodes@.last()));
                }
                pos = p;
                text_start = p;
            },
        }
    }
    proof {
        assert(is_char_boundary(b@, n as int));
    }
    match inside {
        Some(_) => {
            let from = if pos > 0 {
                pos - 1
            } else {
                0
            };
            Err(ParseError { kind: ParseErrorKind::UnclosedBlock(static_name(inside)), span: Span::new(from, pos) })
        },
        None => {
            push_text_node(&mut nodes, source, b, text_start, n);
            Ok((nodes, n))
        },
    }
}

/// The name and the rest of a block's opening tag, as bounds into its chars: the name is
/// `cs[a..name_end]` and the rest `cs[rest_start..e]`.
fn block_header(inner: &String) -> (r: (Vec<char>, usize, usize, usize, usize))
    ensures
        ({
            let (cs, a, name_end, rest_start, e) = r;
            &&& a <= name_end <= rest_start <= e <= cs@.len()
            &&& cs@.subrange(a as int, name_end as int) == split_space(trim(strip_hash(trim(inner@)))).0
            &&& cs@.subrange(rest_start as int, e as int) == split_space(trim(strip_hash(trim(inner@)))).1
        }),
{
    let cs = chars_of(inner.as_str());
    let (a0, b0) = trim_bounds(&cs, 0, cs.len());
    assert(cs@.subrange(0, cs@.len() as int) =~= inner@);
    let a1 = if a0 < b0 && cs[a0] == '#' {
        a0 + 1
    } else {
        a0
    };
    assert(cs@.subrange(a1 as int, b0 as int) == strip_hash(trim(inner@))) by {
        if a0 < b0 && cs@[a0 as int] == '#' {
            assert(cs@.subrange(a1 as int, b0 as int) =~= cs@.subrange(a0 as int, b0 as int).skip(1));
        }
    }
    let (a, e) = trim_bounds(&cs, a1, b0);
    let ghost body = cs@.subrange(a as int, e as int);
    assert(body == trim(strip_hash(trim(inner@))));
    let mut i = a;
    while i < e && !is_whitespace(cs[i])
        invariant
            a <= i <= e <= cs@.len(),
            body == cs@.subrange(a as int, e as int),
            find_space(body, i - a) == find_space(body, 0),
        decreases e - i,
    {
        assert(body[i - a] == cs@[i as int]);
        i += 1;
    }
    let rest_start = if i < e {
        i + 1
    } else {
        e
    };
    if i < e {
        assert(body[i - a] == cs@[i as int]);
        assert(find_space(body, i - a) == Some(i - a));
        assert(cs@.subrange(a as int, i as int) =~= body.take(i - a));
        assert(cs@.subrange(rest_start as int, e as int) =~= body.skip(i - a + 1));
    } else {
        assert(find_space(body, i - a) is None);
        assert(cs@.subrange(rest_start as int, e as int) =~= Seq::<char>::empty());
    }
    (cs, a, i, rest_start, e)
}

/// The rest of an `{#if cond}` block, from the end of its opening tag at `p1`.
fn if_block(source: &str, b: &[u8], brace: usize, span: Span, p1: usize, cond: String) -> (r: Result<(Node, usize), ParseError>)
    requires
        b@ == source.spec_bytes(),
        brace < p1 <= b@.len(),
        is_char_boundary(b@, p1 as int),
    ensures
        ({
            let want = match spec_scan(b@, Some(Block::If), p1 as int, p1 as int, false, seq![]) {
                Err(e) => Err(e),
                Ok((then, p2)) => if !(p1 <= p2 <= b@.len()) {
                    Err(unreachable_error())
                } else {
                    match spec_peek_tag(b@, p2) {
                        Err(e) => Err(e),
                        Ok((_, t_end)) => if p2 + 1 < b@.len() && b@[p2 + 1] == 58u8 {
                            if !(p2 < t_end <= b@.len()) {
                                Err(unreachable_error())
                            } else {
                                match spec_scan(b@, Some(Block::If), t_end, t_end, false, seq![]) {
                                    Err(e) => Err(e),
                                    Ok((otherwise, p3)) => match spec_peek_tag(b@, p3) {
                                        Err(e) => Err(e),
                                        Ok((_, end)) => Ok((NodeV::If { cond: cond@, then, otherwise, span }, end)),
                                    },
                                }
                            }
                        } else {
                            Ok((NodeV::If { cond: cond@, then, otherwise: seq![], span }, t_end))
                        },
                    }
                },
            };
            &&& r matches Ok((nd, p)) ==> want == Ok::<_, ParseErrorV>((nd@, p as int)) && brace < p <= b@.len()
                && is_char_boundary(b@, p as int)
            &&& r matches Err(e) ==> want == Err::<(NodeV, int), ParseErrorV>(e@)
        }),
    decreases b@.len() - brace, 0nat,
{
    let n = b.len();
    let (then, p2) = match scan(source, b, Some(Block::If), p1) {
        Ok(t) => t,
        Err(e) => return Err(e),
    };
    let (_tag, t_end) = match peek_tag(source, b, p2) {
        Ok(t) => t,
        Err(e) => return Err(e),
    };
    if p2 + 1 < n && b[p2 + 1] == 58u8 {
        let (otherwise, p3) = match scan(source, b, Some(Block::If), t_end) {
            Ok(t) => t,
            Err(e) => return Err(e),
        };
        let (_close, end) = match peek_tag(source, b, p3) {
            Ok(t) => t,
            Err(e) => return Err(e),
        };
        Ok((Node::If { cond, then, otherwise, span }, end))
    } else {
        let otherwise: Vec<Node> = Vec::new();
        assert(view_nodes(otherwise@) =~= Seq::<NodeV>::empty());
        Ok((Node::If { cond, then, otherwise, span }, t_end))
    }
}

/// The rest of a `{#for binding in seq}` block, from the end of its opening tag at `p1`.
fn for_block(
    source: &str,
    b: &[u8],
    brace: usize,
    span: Span,
    p1: usize,
    binding: String,
    seq: String,
) -> (r: Result<(Node, usize), ParseError>)
    requires
        b@ == source.spec_bytes(),
        brace < p1 <= b@.len(),
        is_char_boundary(b@, p1 as int),
    ensures
        ({
            let want = match spec_scan(b@, Some(Block::For), p1 as int, p1 as int, false, seq![]) {
                Err(e) => Err(e),
                Ok((body, p2)) => match spec_peek_tag(b@, p2) {
                    Err(e) => Err(e),
                    Ok((_, end)) => Ok((NodeV::For { binding: binding@, seq: seq@, body, span }, end)),
                },
            };
            &&& r matches Ok((nd, p)) ==> want == Ok::<_, ParseErrorV>((nd@, p as int)) && brace < p <= b@.len()
                && is_char_boundary(b@, p as int)
            &&& r matches Err(e) ==> want == Err::<(NodeV, int), ParseErrorV>(e@)
        }),
    decreases b@.len() - brace, 0nat,
{
    let (body, p2) = match scan(source, b, Some(Block::For), p1) {
        Ok(t) => t,
        Err(e) => return Err(e),
    };
    let (_close, end) = match peek_tag(source, b, p2) {
        Ok(t) => t,
        Err(e) => return Err(e),
    };
    Ok((Node::For { binding, seq, body, span }, end))
}

/// The block `{#if …}` or `{#for …}` at `brace`, through its closing tag.
fn block(source: &str, b: &[u8], brace: usize) -> (r: Result<(Node, usize), ParseError>)
    requires
        b@ == source.spec_bytes(),
        brace < b@.len(),
        b@[brace as int] == 123u8,
    ensures
        r matches Ok((nd, p)) ==> spec_block(b@, brace as int) == Ok::<_, ParseErrorV>((nd@, p as int))
            && brace < p <= b@.len() && is_char_boundary(b@, p as int),
        r matches Err(e) ==> spec_block(b@, brace as int) == Err::<(NodeV, int), ParseErrorV>(e@),
    decreases b@.len() - brace, 1nat,
{
    let (inner, span, p1) = match take_braced(source, b, brace) {
        Ok(t) => t,
        Err(e) => return Err(e),
    };
    let (cs, a, name_end, rest_start, e) = block_header(&inner);
    let ghost name = cs@.subrange(a as int, name_end as int);
    let ghost rest = cs@.subrange(rest_start as int, e as int);
    let is_if = name_end - a == 2 && cs[a] == 'i' && cs[a + 1] == 'f';
    let is_for = name_end - a == 3 && cs[a] == 'f' && cs[a + 1] == 'o' && cs[a + 2] == 'r';
    assert(is_if == (name == word_if())) by {
        if is_if {
            assert(name =~= word_if());
        } else if name == word_if() {
            assert(name.len() == 2);
            assert(name[0] == word_if()[0] && name[1] == word_if()[1]);
            assert(cs@[a as int] == name[0] && cs@[a + 1] == name[1]);
        }
    }
    assert(is_for == (name == word_for())) by {
        if is_for {
            assert(name =~= word_for());
        } else if name == word_for() {
            assert(name.len() == 3);
            assert(name[0] == word_for()[0] && name[1] == word_for()[1] && name[2] == word_for()[2]);
            assert(cs@[a as int] == name[0] && cs@[a + 1] == name[1] && cs@[a + 2] == name[2]);
        }
    }
    if is_if {
        let (c0, c1) = trim_bounds(&cs, rest_start, e);
        if c0 == c1 {
            return Err(ParseError { kind: ParseErrorKind::EmptyExpression, span });
        }
        let cond = string_from(&cs, c0, c1);
        if_block(source, b, brace, span, p1, cond)
    } else if is_for {
        let mut j = rest_start;
        while e - j >= 4 && !(cs[j] == ' ' && cs[j + 1] == 'i' && cs[j + 2] == 'n' && cs[j + 3] == ' ')
            invariant
                rest_start <= j <= e,
                e <= cs@.len(),
                rest == cs@.subrange(rest_start as int, e as int),
                find_in(rest, j - rest_start) == find_in(rest, 0),
            decreases e - j,
        {
            j += 1;
        }
        if e - j < 4 {
            return Err(ParseError { kind: ParseErrorKind::MalformedFor, span });
        }
        assert(find_in(rest, j - rest_start) == Some(j - rest_start));
        let (x0, x1) = trim_bounds(&cs, rest_start, j);
        let (y0, y1) = trim_bounds(&cs, j + 4, e);
        assert(cs@.subrange(rest_start as int, j as int) =~= rest.take(j - rest_start));
        assert(cs@.subrange(j + 4, e as int) =~= rest.skip(j - rest_start + 4));
        if x0 == x1 || y0 == y1 {
            return Err(ParseError { kind: ParseErrorKind::MalformedFor, span });
        }
        let binding = string_from(&cs, x0, x1);
        let seq = string_from(&cs, y0, y1);
        for_block(source, b, brace, span, p1, binding, seq)
    } else {
        let other = string_from(&cs, a, name_end);
        Err(ParseError { kind: ParseErrorKind::UnknownBlock(other), span })
    }
}

/// The frontmatter, if the source opens with a `---` fence, and where the body starts.
fn frontmatter(source: &str, b: &[u8]) -> (r: Result<(Option<String>, Option<Span>, usize), ParseError>)
    requires
        b@ == source.spec_bytes(),
    ensures
        r matches Ok((f, s, p)) ==> {
            &&& spec_frontmatter(b@) matches Ok((fm, q))
            &&& q == p as int
            &&& p <= b@.len()
            &&& is_char_boundary(b@, p as int)
            &&& match fm {
                Some(x) => f matches Some(fs) && fs@ == x.0 && s == Some(x.1),
                None => f is None && s is None,
            }
        },
        r matches Err(e) ==> spec_frontmatter(b@) == Err::<(Option<(Seq<char>, Span)>, int), ParseErrorV>(e@),
{
    let n = b.len();
    if !(n >= 3 && b[0] == 45u8 && b[1] == 45u8 && b[2] == 45u8) {
        assert(is_char_boundary(b@, 0));
        return Ok((None, None, 0));
    }
    let o = match find_byte_from(b, 3, 10u8) {
        Some(o) => o,
        None => {
            return Err(
                ParseError { kind: ParseErrorKind::UnclosedFrontmatter, span: Span::new(0, source.len()) },
            )
        },
    };
    let body_start = o + 1;
    let j = match find_fence_from(b, body_start) {
        Some(j) => j,
        None => {
            return Err(
                ParseError { kind: ParseErrorKind::UnclosedFrontmatter, span: Span::new(0, source.len()) },
            )
        },
    };
    let pos = match find_byte_from(b, j + 4, 10u8) {
        Some(nl) => {
            proof {
                lemma_ascii_boundaries(b@, nl as int);
            }
            nl + 1
        },
        None => {
            assert(is_char_boundary(b@, n as int));
            n
        },
    };
    proof {
        lemma_ascii_boundaries(b@, o as int);
        lemma_ascii_boundaries(b@, j as int);
    }
    let text = slice_owned(source, body_start, j);
    Ok((Some(text), Some(Span::new(body_start, j)), pos))
}

/// Parse a `.tri` source file.
///
/// Returns the first structural problem found, with the span that caused it. Expressions are not
/// validated here: their source is recorded verbatim, trimmed.
pub fn parse(source: &str) -> (r: Result<Document, ParseError>)
    ensures
        r matches Ok(d) ==> spec_parse(source.spec_bytes()) == Ok::<_, ParseErrorV>(d@),
        r matches Err(e) ==> spec_parse(source.spec_bytes()) == Err::<DocumentV, ParseErrorV>(e@),
        r matches Err(e) ==> span_within(e.span, source.spec_bytes().len() as int),
        r matches Ok(d) ==> all_spans_within(d@.nodes, source.spec_bytes().len() as int),
        r matches Ok(d) ==> crate::compiler::parsed::all_read(d@.nodes, source.spec_bytes()),
{
    let b = source.as_bytes();
    let n = b.len();
    proof {
        assert(b@ == source.spec_bytes() && n == b@.len());
        lemma_parse_spans_within(source.spec_bytes());
        crate::compiler::parsed::lemma_parse_reads_source(source.spec_bytes());
    }
    let (frontmatter, frontmatter_span, pos) = match frontmatter(source, b) {
        Ok(t) => t,
        Err(e) => return Err(e),
    };
    let (nodes, _end) = match scan(source, b, None, pos) {
        Ok(t) => t,
        Err(e) => return Err(e),
    };
    Ok(Document { frontmatter, frontmatter_span, nodes })
}

/// Whether a span lies within a source of `len` bytes, start before end.
pub open spec fn span_within(span: Span, len: int) -> bool {
    span.start <= span.end && span.end <= len
}

/// Whether the span of node `n`, and of every node inside it, lies within `len` bytes.
pub open spec fn node_spans_within(n: NodeV, len: int) -> bool
    decreases n, 0nat, 0nat,
{
    match n {
        NodeV::Text { span, .. } => span_within(span, len),
        NodeV::Expr { span, .. } => span_within(span, len),
        NodeV::If { then: yes, otherwise: no, span, .. } => span_within(span, len) && spans_prefix(
            yes,
            yes.len(),
            len,
        ) && spans_prefix(no, no.len(), len),
        NodeV::For { body, span, .. } => span_within(span, len) && spans_prefix(body, body.len(), len),
    }
}

/// Whether the spans of the first `k` nodes of `ns`, at any depth, lie within `len` bytes.
pub open spec fn spans_prefix(ns: Seq<NodeV>, k: nat, len: int) -> bool
    decreases ns, 1nat, k,
{
    if k == 0 || k > ns.len() {
        true
    } else {
        spans_prefix(ns, (k - 1) as nat, len) && node_spans_within(ns[k - 1], len)
    }
}

/// `spans_prefix` holds exactly when each of the first `k` nodes has its spans within `len`.
proof fn lemma_spans_prefix(ns: Seq<NodeV>, k: nat, len: int)
    requires
        k <= ns.len(),
    ensures
        spans_prefix(ns, k, len) <==> forall|j: int| 0 <= j < k ==> #[trigger] node_spans_within(ns[j], len),
    decreases k,
{
    if k > 0 {
        lemma_spans_prefix(ns, (k - 1) as nat, len);
        if spans_prefix(ns, k, len) {
            assert forall|j: int| 0 <= j < k implies #[trigger] node_spans_within(ns[j], len) by {
                if j < k - 1 {
                    assert(spans_prefix(ns, (k - 1) as nat, len));
                }
            }
        }
        if forall|j: int| 0 <= j < k ==> #[trigger] node_spans_within(ns[j], len) {
            assert forall|j: int| 0 <= j < k - 1 implies #[trigger] node_spans_within(ns[j], len) by {
                assert(node_spans_within(ns[j], len));
            }
            assert(node_spans_within(ns[k - 1], len));
        }
    }
}

/// Whether every node of `ns` has its spans within `len`.
pub open spec fn all_spans_within(ns: Seq<NodeV>, len: int) -> bool {
    forall|j: int| 0 <= j < ns.len() ==> #[trigger] node_spans_within(ns[j], len)
}

/// A match for a brace lies at or after where the search began, inside the input.
proof fn lemma_match_brace_bounds(b: Seq<u8>, i: int, depth: nat)
    requires
        0 <= i,
    ensures
        match_brace(b, i, depth) matches Some(j) ==> i <= j < b.len(),
    decreases b.len() - i,
{
    if 0 <= i < b.len() {
        if b[i] == 123u8 {
            lemma_match_brace_bounds(b, i + 1, depth + 1);
        } else if b[i] == 125u8 {
            if depth > 1 {
                lemma_match_brace_bounds(b, i + 1, (depth - 1) as nat);
            }
        } else {
            lemma_match_brace_bounds(b, i + 1, depth);
        }
    }
}

/// A byte found lies at or after where the search began, inside the input.
proof fn lemma_find_byte_bounds(b: Seq<u8>, from: int, c: u8)
    requires
        0 <= from,
    ensures
        find_byte(b, from, c) matches Some(j) ==> from <= j < b.len(),
    decreases b.len() - from,
{
    if 0 <= from < b.len() && b[from] != c {
        lemma_find_byte_bounds(b, from + 1, c);
    }
}

/// A fence found lies at or after where the search began, with its four bytes inside the input.
proof fn lemma_find_fence_bounds(b: Seq<u8>, from: int)
    requires
        0 <= from,
    ensures
        find_fence(b, from) matches Some(j) ==> from <= j && j + 4 <= b.len(),
    decreases b.len() - from,
{
    if from + 4 <= b.len() && !fence_at(b, from) {
        lemma_find_fence_bounds(b, from + 1);
    }
}

/// What a braced read at `brace` reports lies within the input.
proof fn lemma_take_braced_bounds(b: Seq<u8>, brace: int)
    requires
        0 <= brace < b.len(),
        b.len() <= usize::MAX,
    ensures
        spec_take_braced(b, brace) matches Ok((_, span, p)) ==> span_within(span, b.len() as int)
            && span.start == brace && brace < p <= b.len() && span.end == p,
        spec_take_braced(b, brace) matches Err(e) ==> span_within(e.span, b.len() as int),
{
    lemma_match_brace_bounds(b, brace, 0);
}

/// Where a tag at `brace` ends lies within the input, and so does the error it may report.
proof fn lemma_peek_tag_bounds(b: Seq<u8>, brace: int)
    requires
        0 <= brace <= b.len(),
        b.len() <= usize::MAX,
    ensures
        spec_peek_tag(b, brace) matches Ok((_, p)) ==> brace < p <= b.len(),
        spec_peek_tag(b, brace) matches Err(e) ==> span_within(e.span, b.len() as int),
{
    lemma_find_byte_bounds(b, brace + 2, 125u8);
}

/// Pushing text between `start` and `end` keeps every span within the input.
proof fn lemma_push_text_spans(acc: Seq<NodeV>, b: Seq<u8>, start: int, end: int)
    requires
        all_spans_within(acc, b.len() as int),
        0 <= start <= end <= b.len(),
        b.len() <= usize::MAX,
    ensures
        all_spans_within(push_text(acc, b, start, end), b.len() as int),
{
    let r = push_text(acc, b, start, end);
    if end > start {
        assert forall|j: int| 0 <= j < r.len() implies #[trigger] node_spans_within(r[j], b.len() as int) by {
            if j < acc.len() {
                assert(r[j] == acc[j]);
            }
        }
    }
}

/// A scan reports only spans within the input, and ends inside it.
proof fn lemma_scan_spans(
    b: Seq<u8>,
    inside: Option<Block>,
    pos: int,
    text_start: int,
    in_tag: bool,
    acc: Seq<NodeV>,
)
    requires
        b.len() <= usize::MAX,
        all_spans_within(acc, b.len() as int),
    ensures
        spec_scan(b, inside, pos, text_start, in_tag, acc) matches Ok((nodes, end))
            ==> all_spans_within(nodes, b.len() as int) && pos <= end <= b.len(),
        spec_scan(b, inside, pos, text_start, in_tag, acc) matches Err(e) ==> span_within(
            e.span,
            b.len() as int,
        ),
    decreases b.len() - pos, 1nat,
{
    let len = b.len() as int;
    if !(0 <= text_start <= pos <= b.len()) {
    } else if pos == b.len() {
        lemma_push_text_spans(acc, b, text_start, pos);
    } else if b[pos] != 123u8 {
        let in_tag2 = if b[pos] == 60u8 {
            true
        } else if b[pos] == 62u8 {
            false
        } else {
            in_tag
        };
        lemma_scan_spans(b, inside, pos + 1, text_start, in_tag2, acc);
    } else {
        let next: Option<u8> = if pos + 1 < b.len() {
            Some(b[pos + 1])
        } else {
            None
        };
        lemma_push_text_spans(acc, b, text_start, pos);
        if next == Some(47u8) || next == Some(58u8) {
            lemma_peek_tag_bounds(b, pos);
        } else {
            let acc2 = push_text(acc, b, text_start, pos);
            if next == Some(35u8) {
                lemma_block_spans(b, pos);
            } else {
                lemma_take_braced_bounds(b, pos);
            }
            let found = if next == Some(35u8) {
                spec_block(b, pos)
            } else {
                spec_interpolation(b, pos, in_tag)
            };
            if let Ok((node, p)) = found {
                if pos < p <= b.len() {
                    assert forall|j: int| 0 <= j < acc2.push(node).len() implies #[trigger] node_spans_within(
                        acc2.push(node)[j],
                        len,
                    ) by {
                        if j < acc2.len() {
                            assert(acc2.push(node)[j] == acc2[j]);
                        }
                    }
                    lemma_scan_spans(b, inside, p, p, in_tag, acc2.push(node));
                }
            }
        }
    }
}

/// A block reports only spans within the input, and ends inside it.
proof fn lemma_block_spans(b: Seq<u8>, brace: int)
    requires
        b.len() <= usize::MAX,
    ensures
        spec_block(b, brace) matches Ok((node, p)) ==> node_spans_within(node, b.len() as int) && p
            <= b.len(),
        spec_block(b, brace) matches Err(e) ==> span_within(e.span, b.len() as int),
    decreases b.len() - brace, 0nat,
{
    let len = b.len() as int;
    if 0 <= brace < b.len() {
        lemma_take_braced_bounds(b, brace);
        if let Ok((inner, span, p1)) = spec_take_braced(b, brace) {
            let body = trim(strip_hash(trim(inner)));
            let name = split_space(body).0;
            let rest = split_space(body).1;
            if name == word_if() {
                if trim(rest).len() != 0 && brace < p1 <= b.len() {
                    lemma_scan_spans(b, Some(Block::If), p1, p1, false, seq![]);
                    if let Ok((yes, p2)) = spec_scan(b, Some(Block::If), p1, p1, false, seq![]) {
                        if p1 <= p2 <= b.len() {
                            lemma_peek_tag_bounds(b, p2);
                            lemma_spans_prefix(yes, yes.len(), len);
                            if let Ok((_, t_end)) = spec_peek_tag(b, p2) {
                                if p2 + 1 < b.len() && b[p2 + 1] == 58u8 {
                                    if p2 < t_end <= b.len() {
                                        lemma_scan_spans(b, Some(Block::If), t_end, t_end, false, seq![]);
                                        if let Ok((no, p3)) = spec_scan(
                                            b,
                                            Some(Block::If),
                                            t_end,
                                            t_end,
                                            false,
                                            seq![],
                                        ) {
                                            lemma_peek_tag_bounds(b, p3);
                                            lemma_spans_prefix(no, no.len(), len);
                                        }
                                    }
                                } else {
                                    lemma_spans_prefix(Seq::<NodeV>::empty(), 0, len);
                                }
                            }
                        }
                    }
                }
            } else if name == word_for() {
                if let Some(j) = find_in(rest, 0) {
                    if brace < p1 <= b.len() {
                        lemma_scan_spans(b, Some(Block::For), p1, p1, false, seq![]);
                        if let Ok((body_nodes, p2)) = spec_scan(b, Some(Block::For), p1, p1, false, seq![]) {
                            lemma_peek_tag_bounds(b, p2);
                            lemma_spans_prefix(body_nodes, body_nodes.len(), len);
                        }
                    }
                }
            }
        }
    }
}

/// Every span a parse reports lies within the source: that of the error, or those of the
/// frontmatter and of every node at any depth. An error report can always point at its cause.
pub proof fn lemma_parse_spans_within(b: Seq<u8>)
    requires
        b.len() <= usize::MAX,
    ensures
        spec_parse(b) matches Err(e) ==> span_within(e.span, b.len() as int),
        spec_parse(b) matches Ok(doc) ==> all_spans_within(doc.nodes, b.len() as int) && (
        doc.frontmatter_span matches Some(span) ==> span_within(span, b.len() as int)),
{
    if b.len() >= 3 && b[0] == 45u8 && b[1] == 45u8 && b[2] == 45u8 {
        lemma_find_byte_bounds(b, 3, 10u8);
        if let Some(o) = find_byte(b, 3, 10u8) {
            lemma_find_fence_bounds(b, o + 1);
            if let Some(j) = find_fence(b, o + 1) {
                lemma_find_byte_bounds(b, j + 4, 10u8);
            }
        }
    }
    if let Ok((fm, pos)) = spec_frontmatter(b) {
        lemma_scan_spans(b, None, pos, pos, false, seq![]);
    }
}

} // verus!
