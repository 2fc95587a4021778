//! What a parse guarantees of the document it returns, stated apart from the scanner that
//! defines it: text nodes are exact, non-empty slices of the source and never stand side by
//! side, and every expression, condition, sequence and loop binding is trimmed and not empty.
use vstd::prelude::*;
use crate::compiler::ast::NodeV;
use crate::compiler::parser::{
    push_text, spec_block, spec_interpolation, spec_parse, spec_peek_tag, spec_scan, spec_take_braced,
    split_space, strip_hash, word_for, word_if, find_in, spec_frontmatter, Block,
};
use crate::text::{lemma_trim_trimmed, text_at, trim, trimmed_nonempty};

verus! {

/// Whether node `n`, and every node inside it, reads its source `b` faithfully: a text node is
/// the exact, non-empty slice its span covers, and every expression, condition, sequence and
/// binding is trimmed and not empty.
pub open spec fn node_read(n: NodeV, b: Seq<u8>) -> bool
    decreases n, 0nat, 0nat,
{
    match n {
        NodeV::Text { value, span } => span.start < span.end && value == text_at(
            b,
            span.start as int,
            span.end as int,
        ),
        NodeV::Expr { source, .. } => trimmed_nonempty(source),
        NodeV::If { cond, then: yes, otherwise: no, .. } => trimmed_nonempty(cond) && read_prefix(
            yes,
            yes.len(),
            b,
        ) && read_prefix(no, no.len(), b),
        NodeV::For { binding, seq, body, .. } => trimmed_nonempty(binding) && trimmed_nonempty(seq)
            && read_prefix(body, body.len(), b),
    }
}

/// Whether the first `k` nodes of `ns` read `b` faithfully, with no two text nodes side by side.
pub open spec fn read_prefix(ns: Seq<NodeV>, k: nat, b: Seq<u8>) -> bool
    decreases ns, 1nat, k,
{
    if k == 0 || k > ns.len() {
        true
    } else {
        &&& read_prefix(ns, (k - 1) as nat, b)
        &&& node_read(ns[k - 1], b)
        &&& k >= 2 ==> !(ns[k - 2] is Text && ns[k - 1] is Text)
    }
}

/// Whether all of `ns` reads `b` faithfully, with no two text nodes side by side.
pub open spec fn all_read(ns: Seq<NodeV>, b: Seq<u8>) -> bool {
    read_prefix(ns, ns.len(), b)
}

/// A node pushed onto `ns` leaves what `read_prefix` says of the nodes before it.
proof fn lemma_read_prefix_push(ns: Seq<NodeV>, n: NodeV, k: nat, b: Seq<u8>)
    requires
        k <= ns.len(),
    ensures
        read_prefix(ns.push(n), k, b) == read_prefix(ns, k, b),
    decreases k,
{
    if k > 0 {
        lemma_read_prefix_push(ns, n, (k - 1) as nat, b);
        assert(ns.push(n)[k - 1] == ns[k - 1]);
        if k >= 2 {
            assert(ns.push(n)[k - 2] == ns[k - 2]);
        }
    }
}

/// Whether `acc` may take a text node next: it is empty or ends with something else.
pub open spec fn open_for_text(acc: Seq<NodeV>) -> bool {
    acc.len() == 0 || !(acc.last() is Text)
}

/// Pushing a node keeps the nodes read faithfully, when the node is and is not a second text.
proof fn lemma_push_read(acc: Seq<NodeV>, n: NodeV, b: Seq<u8>)
    requires
        all_read(acc, b),
        node_read(n, b),
        n is Text ==> open_for_text(acc),
    ensures
        all_read(acc.push(n), b),
{
    lemma_read_prefix_push(acc, n, acc.len(), b);
    if acc.len() >= 1 {
        assert(acc.push(n)[acc.len() - 1] == acc.last());
    }
    assert(acc.push(n)[acc.len() as int] == n);
}

/// Text pushed between `start` and `end` keeps the nodes read faithfully.
proof fn lemma_push_text_read(acc: Seq<NodeV>, b: Seq<u8>, start: int, end: int)
    requires
        all_read(acc, b),
        open_for_text(acc),
        0 <= start <= end,
        end <= usize::MAX,
    ensures
        all_read(push_text(acc, b, start, end), b),
{
    if end > start {
        let n = NodeV::Text {
            value: text_at(b, start, end),
            span: crate::compiler::ast::Span { start: start as usize, end: end as usize },
        };
        lemma_push_read(acc, n, b);
    }
}

/// A scan from a point where a text node may come next returns nodes read faithfully.
proof fn lemma_scan_read(
    b: Seq<u8>,
    inside: Option<Block>,
    pos: int,
    text_start: int,
    in_tag: bool,
    acc: Seq<NodeV>,
)
    requires
        b.len() <= usize::MAX,
        all_read(acc, b),
        open_for_text(acc),
    ensures
        spec_scan(b, inside, pos, text_start, in_tag, acc) matches Ok((nodes, _)) ==> all_read(
            nodes,
            b,
        ),
    decreases b.len() - pos, 1nat,
{
    if !(0 <= text_start <= pos <= b.len()) {
    } else if pos == b.len() {
        lemma_push_text_read(acc, b, text_start, pos);
    } else if b[pos] != 123u8 {
        let in_tag2 = if b[pos] == 60u8 {
            true
        } else if b[pos] == 62u8 {
            false
        } else {
            in_tag
        };
        lemma_scan_read(b, inside, pos + 1, text_start, in_tag2, acc);
    } else {
        let next: Option<u8> = if pos + 1 < b.len() {
            Some(b[pos + 1])
        } else {
            None
        };
        lemma_push_text_read(acc, b, text_start, pos);
        if !(next == Some(47u8) || next == Some(58u8)) {
            let acc2 = push_text(acc, b, text_start, pos);
            if next == Some(35u8) {
                lemma_block_read(b, pos);
            } else {
                lemma_interpolation_read(b, pos, in_tag);
            }
            let found = if next == Some(35u8) {
                spec_block(b, pos)
            } else {
                spec_interpolation(b, pos, in_tag)
            };
            if let Ok((node, p)) = found {
                if pos < p <= b.len() {
                    lemma_push_read(acc2, node, b);
                    lemma_scan_read(b, inside, p, p, in_tag, acc2.push(node));
                }
            }
        }
    }
}

/// An interpolation is an expression, trimmed and not empty.
proof fn lemma_interpolation_read(b: Seq<u8>, brace: int, attribute: bool)
    ensures
        spec_interpolation(b, brace, attribute) matches Ok((node, _)) ==> node_read(node, b) && !(
        node is Text),
{
    if let Ok((inner, span, p)) = spec_take_braced(b, brace) {
        if trim(inner).len() != 0 {
            lemma_trim_trimmed(inner);
        }
    }
}

/// A block is an `if` or a `for`, whose condition or sequence and binding are trimmed and not
/// empty, and whose bodies are read faithfully.
proof fn lemma_block_read(b: Seq<u8>, brace: int)
    requires
        b.len() <= usize::MAX,
    ensures
        spec_block(b, brace) matches Ok((node, _)) ==> node_read(node, b) && !(node is Text),
    decreases b.len() - brace, 0nat,
{
    if 0 <= brace < b.len() {
        if let Ok((inner, span, p1)) = spec_take_braced(b, brace) {
            let body = trim(strip_hash(trim(inner)));
            let name = split_space(body).0;
            let rest = split_space(body).1;
            if name == word_if() {
                if trim(rest).len() != 0 && brace < p1 <= b.len() {
                    lemma_trim_trimmed(rest);
                    lemma_scan_read(b, Some(Block::If), p1, p1, false, seq![]);
                    if let Ok((yes, p2)) = spec_scan(b, Some(Block::If), p1, p1, false, seq![]) {
                        if p1 <= p2 && p2 + 1 < b.len() && b[p2 + 1] == 58u8 {
                            if let Ok((_, t_end)) = crate::compiler::parser::spec_peek_tag(b, p2) {
                                if p2 < t_end <= b.len() {
                                    lemma_scan_read(b, Some(Block::If), t_end, t_end, false, seq![]);
                                }
                            }
                        }
                    }
                }
            } else if name == word_for() {
                if let Some(j) = find_in(rest, 0) {
                    let binding = trim(rest.take(j));
                    let seq = trim(rest.skip(j + 4));
                    if binding.len() != 0 && seq.len() != 0 && brace < p1 <= b.len() {
                        lemma_trim_trimmed(rest.take(j));
                        lemma_trim_trimmed(rest.skip(j + 4));
                        lemma_scan_read(b, Some(Block::For), p1, p1, false, seq![]);
                    }
                }
            }
        }
    }
}

/// A parsed document reads its source faithfully: each text node is the exact, non-empty slice
/// of the source its span covers, no two text nodes stand side by side, and every expression,
/// condition, sequence and loop binding is trimmed and not empty, at any depth.
pub proof fn lemma_parse_reads_source(b: Seq<u8>)
    requires
        b.len() <= usize::MAX,
    ensures
        spec_parse(b) matches Ok(doc) ==> all_read(doc.nodes, b),
{
    if let Ok((fm, pos)) = spec_frontmatter(b) {
        lemma_scan_read(b, None, pos, pos, false, seq![]);
    }
}

/// Whether the last `<` or `>` among the bytes `b[from..to]` is a `<`; with neither among them,
/// `state`. This is whether a tag is open after reading those bytes.
pub open spec fn last_mark_opens(b: Seq<u8>, from: int, to: int, state: bool) -> bool
    decreases to - from,
{
    if to <= from {
        state
    } else if b[to - 1] == 60u8 {
        true
    } else if b[to - 1] == 62u8 {
        false
    } else {
        last_mark_opens(b, from, to - 1, state)
    }
}

/// Whether a tag is open after the text nodes among `ns[..k]`, read in order from outside any
/// tag: the bytes of each text node's span count, and nothing inside other nodes does.
pub open spec fn tag_open_before(ns: Seq<NodeV>, k: nat, b: Seq<u8>) -> bool
    decreases k,
{
    if k == 0 || k > ns.len() {
        false
    } else {
        let state = tag_open_before(ns, (k - 1) as nat, b);
        match ns[k - 1] {
            NodeV::Text { span, .. } => last_mark_opens(b, span.start as int, span.end as int, state),
            _ => state,
        }
    }
}

/// Whether every expression inside `n`, at any depth, is marked as an attribute exactly when a
/// tag is open where it stands in its own run of nodes.
pub open spec fn node_marks_tags(n: NodeV, b: Seq<u8>) -> bool
    decreases n, 0nat, 0nat,
{
    match n {
        NodeV::If { then: yes, otherwise: no, .. } => marks_prefix(yes, yes.len(), b) && marks_prefix(
            no,
            no.len(),
            b,
        ),
        NodeV::For { body, .. } => marks_prefix(body, body.len(), b),
        _ => true,
    }
}

/// Whether each expression among `ns[..k]`, and inside them, is marked as an attribute exactly
/// when a tag is open where it stands.
pub open spec fn marks_prefix(ns: Seq<NodeV>, k: nat, b: Seq<u8>) -> bool
    decreases ns, 1nat, k,
{
    if k == 0 || k > ns.len() {
        true
    } else {
        &&& marks_prefix(ns, (k - 1) as nat, b)
        &&& node_marks_tags(ns[k - 1], b)
        &&& (ns[k - 1] matches NodeV::Expr { attribute, .. } ==> attribute == tag_open_before(
            ns,
            (k - 1) as nat,
            b,
        ))
    }
}

/// Whether every expression among `ns`, at any depth, is marked as an attribute exactly when a
/// tag is open where it stands.
pub open spec fn attributes_follow_tags(ns: Seq<NodeV>, b: Seq<u8>) -> bool {
    marks_prefix(ns, ns.len(), b)
}

/// A node pushed onto `ns` leaves the tag state and the marks of the nodes before it.
proof fn lemma_marks_push(ns: Seq<NodeV>, n: NodeV, k: nat, b: Seq<u8>)
    requires
        k <= ns.len(),
    ensures
        marks_prefix(ns.push(n), k, b) == marks_prefix(ns, k, b),
        tag_open_before(ns.push(n), k, b) == tag_open_before(ns, k, b),
    decreases k,
{
    if k > 0 {
        lemma_marks_push(ns, n, (k - 1) as nat, b);
        assert(ns.push(n)[k - 1] == ns[k - 1]);
    }
}

/// Pushing a node keeps the marks right when the node's own are, and moves the tag state past it.
proof fn lemma_marks_push_node(acc: Seq<NodeV>, n: NodeV, b: Seq<u8>)
    requires
        attributes_follow_tags(acc, b),
        node_marks_tags(n, b),
        n matches NodeV::Expr { attribute, .. } ==> attribute == tag_open_before(acc, acc.len(), b),
    ensures
        attributes_follow_tags(acc.push(n), b),
        tag_open_before(acc.push(n), acc.len() + 1, b) == match n {
            NodeV::Text { span, .. } => last_mark_opens(
                b,
                span.start as int,
                span.end as int,
                tag_open_before(acc, acc.len(), b),
            ),
            _ => tag_open_before(acc, acc.len(), b),
        },
{
    lemma_marks_push(acc, n, acc.len(), b);
    assert(acc.push(n)[acc.len() as int] == n);
}

/// Text pushed between `start` and `end` keeps the marks right and moves the tag state over its
/// bytes.
proof fn lemma_push_text_marks(acc: Seq<NodeV>, b: Seq<u8>, start: int, end: int)
    requires
        attributes_follow_tags(acc, b),
        0 <= start <= end,
        end <= usize::MAX,
    ensures
        attributes_follow_tags(push_text(acc, b, start, end), b),
        tag_open_before(push_text(acc, b, start, end), push_text(acc, b, start, end).len(), b)
            == last_mark_opens(b, start, end, tag_open_before(acc, acc.len(), b)),
{
    if end > start {
        let n = NodeV::Text {
            value: text_at(b, start, end),
            span: crate::compiler::ast::Span { start: start as usize, end: end as usize },
        };
        lemma_marks_push_node(acc, n, b);
    }
}

/// A scan whose tag state is that of the nodes and text before it marks each expression by
/// whether a tag is open where it stands.
proof fn lemma_scan_marks(
    b: Seq<u8>,
    inside: Option<Block>,
    pos: int,
    text_start: int,
    in_tag: bool,
    acc: Seq<NodeV>,
)
    requires
        b.len() <= usize::MAX,
        attributes_follow_tags(acc, b),
        in_tag == last_mark_opens(b, text_start, pos, tag_open_before(acc, acc.len(), b)),
    ensures
        spec_scan(b, inside, pos, text_start, in_tag, acc) matches Ok((nodes, _))
            ==> attributes_follow_tags(nodes, b),
    decreases b.len() - pos, 1nat,
{
    if !(0 <= text_start <= pos <= b.len()) {
    } else if pos == b.len() {
        lemma_push_text_marks(acc, b, text_start, pos);
    } else if b[pos] != 123u8 {
        let in_tag2 = if b[pos] == 60u8 {
            true
        } else if b[pos] == 62u8 {
            false
        } else {
            in_tag
        };
        lemma_scan_marks(b, inside, pos + 1, text_start, in_tag2, acc);
    } else {
        let next: Option<u8> = if pos + 1 < b.len() {
            Some(b[pos + 1])
        } else {
            None
        };
        lemma_push_text_marks(acc, b, text_start, pos);
        if !(next == Some(47u8) || next == Some(58u8)) {
            let acc2 = push_text(acc, b, text_start, pos);
            if next == Some(35u8) {
                lemma_block_marks(b, pos);
            }
            let found = if next == Some(35u8) {
                spec_block(b, pos)
            } else {
                spec_interpolation(b, pos, in_tag)
            };
            if let Ok((node, p)) = found {
                if pos < p <= b.len() {
                    lemma_marks_push_node(acc2, node, b);
                    lemma_scan_marks(b, inside, p, p, in_tag, acc2.push(node));
                }
            }
        }
    }
}

/// A block is no text and no expression, and the runs inside it mark their expressions by
/// whether a tag is open where they stand, starting outside any tag.
proof fn lemma_block_marks(b: Seq<u8>, brace: int)
    requires
        b.len() <= usize::MAX,
    ensures
        spec_block(b, brace) matches Ok((node, _)) ==> node_marks_tags(node, b) && !(node is Text)
            && !(node is Expr),
    decreases b.len() - brace, 0nat,
{
    if 0 <= brace < b.len() {
        if let Ok((inner, span, p1)) = spec_take_braced(b, brace) {
            let body = trim(strip_hash(trim(inner)));
            let name = split_space(body).0;
            let rest = split_space(body).1;
            if name == word_if() {
                if trim(rest).len() != 0 && brace < p1 <= b.len() {
                    lemma_scan_marks(b, Some(Block::If), p1, p1, false, seq![]);
                    if let Ok((yes, p2)) = spec_scan(b, Some(Block::If), p1, p1, false, seq![]) {
                        if p1 <= p2 && p2 + 1 < b.len() && b[p2 + 1] == 58u8 {
                            if let Ok((_, t_end)) = spec_peek_tag(b, p2) {
                                if p2 < t_end <= b.len() {
                                    lemma_scan_marks(b, Some(Block::If), t_end, t_end, false, seq![]);
                                }
                            }
                        }
                    }
                }
            } else if name == word_for() {
                if let Some(j) = find_in(rest, 0) {
                    if brace < p1 <= b.len() {
                        lemma_scan_marks(b, Some(Block::For), p1, p1, false, seq![]);
                    }
                }
            }
        }
    }
}

/// A parsed document marks an interpolation as an attribute value exactly when it stands inside
/// a tag: when the last `<` or `>` before it, among the text of its own run of nodes, is a `<`.
/// What lies inside other interpolations and blocks of the run does not count, and each block
/// body starts outside any tag.
pub proof fn lemma_parse_marks_attributes(b: Seq<u8>)
    requires
        b.len() <= usize::MAX,
    ensures
        spec_parse(b) matches Ok(doc) ==> attributes_follow_tags(doc.nodes, b),
{
    if let Ok((fm, pos)) = spec_frontmatter(b) {
        lemma_scan_marks(b, None, pos, pos, false, seq![]);
    }
}

} // verus!
