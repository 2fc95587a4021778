//! Lower a parsed document into a runtime descriptor ([`Template`]).
//!
//! Expressions are interned in first-seen order, so two parses of the same component produce the
//! same expression table whenever the expressions themselves are unchanged. That equality is what
//! [`Template::is_hot_swappable_with`] tests.
use vstd::prelude::*;
use crate::compiler::ast::{lemma_view_prefix, view_node, view_nodes, Document, DocumentV, Node, NodeV};
use crate::runtime::template::{
    all_within, lemma_all_within, lemma_rview_nodes_push, lemma_rview_prefix, refs_within,
    rview_nodes, within_prefix, Node as RtNode, RNode, Template, TemplateV,
};

verus! {

/// The first index at or after `i` where `table` holds `s`.
pub open spec fn index_from(table: Seq<Seq<char>>, s: Seq<char>, i: int) -> Option<int>
    decreases table.len() - i,
{
    if i < 0 || i >= table.len() {
        None
    } else if table[i] == s {
        Some(i)
    } else {
        index_from(table, s, i + 1)
    }
}

/// `table` with `s` interned, and the index of `s` in it: its first occurrence, or a new last
/// entry.
pub open spec fn intern(table: Seq<Seq<char>>, s: Seq<char>) -> (Seq<Seq<char>>, usize) {
    match index_from(table, s, 0) {
        Some(i) => (table, i as usize),
        None => (table.push(s), table.len() as usize),
    }
}

/// `out` followed by static text `t`, merged into the last node when that is static too.
pub open spec fn push_static(out: Seq<RNode>, t: Seq<char>) -> Seq<RNode> {
    if out.len() > 0 && out.last() is Static {
        out.drop_last().push(RNode::Static(out.last()->Static_0 + t))
    } else {
        out.push(RNode::Static(t))
    }
}

/// Lower the first `k` nodes of `ns`, interning into `table`.
pub open spec fn lower_prefix(ns: Seq<NodeV>, k: nat, table: Seq<Seq<char>>) -> (Seq<RNode>, Seq<Seq<char>>)
    decreases ns, 1nat, k,
{
    if k == 0 || k > ns.len() {
        (seq![], table)
    } else {
        let (out, t) = lower_prefix(ns, (k - 1) as nat, table);
        lower_step(out, ns[k - 1], t)
    }
}

/// Lower node `n` after the nodes already lowered into `out`.
pub open spec fn lower_step(out: Seq<RNode>, n: NodeV, table: Seq<Seq<char>>) -> (Seq<RNode>, Seq<Seq<char>>)
    decreases n, 0nat, 0nat,
{
    match n {
        NodeV::Text { value, .. } => (push_static(out, value), table),
        NodeV::Expr { source, attribute, .. } => {
            let (t, i) = intern(table, source);
            (out.push(if attribute { RNode::ExprAttr(i) } else { RNode::Expr(i) }), t)
        },
        NodeV::If { cond, then, otherwise, .. } => {
            let (t1, c) = intern(table, cond);
            let (then_out, t2) = lower_prefix(then, then.len(), t1);
            let (else_out, t3) = lower_prefix(otherwise, otherwise.len(), t2);
            (out.push(RNode::If { cond: c, then: then_out, otherwise: else_out }), t3)
        },
        NodeV::For { seq, body, .. } => {
            let (t1, s) = intern(table, seq);
            let (body_out, t2) = lower_prefix(body, body.len(), t1);
            (out.push(RNode::For { seq: s, body: body_out }), t2)
        },
    }
}

/// The descriptor a document lowers to.
pub open spec fn spec_lower(doc: DocumentV) -> TemplateV {
    let (nodes, expressions) = lower_prefix(doc.nodes, doc.nodes.len(), seq![]);
    TemplateV { nodes, expressions }
}

/// Whether `table` lists each expression once.
pub open spec fn distinct(table: Seq<Seq<char>>) -> bool {
    forall|i: int, j: int| 0 <= i < j < table.len() ==> table[i] != table[j]
}

/// Whether `longer` begins with `table`.
pub open spec fn extends(longer: Seq<Seq<char>>, table: Seq<Seq<char>>) -> bool {
    table.len() <= longer.len() && forall|i: int| 0 <= i < table.len() ==> longer[i] == table[i]
}

/// `index_from` finds the first place at or after `i` that holds `s`, or says there is none.
proof fn lemma_index_from(table: Seq<Seq<char>>, s: Seq<char>, i: int)
    requires
        0 <= i,
    ensures
        index_from(table, s, i) matches Some(j) ==> i <= j < table.len() && table[j] == s,
        index_from(table, s, i) is None ==> forall|j: int| i <= j < table.len() ==> table[j] != s,
    decreases table.len() - i,
{
    if i < table.len() && table[i] != s {
        lemma_index_from(table, s, i + 1);
    }
}

/// Interning keeps what the table held, adds at most the new expression, keeps the entries
/// distinct, and gives an index that holds the expression.
proof fn lemma_intern(table: Seq<Seq<char>>, s: Seq<char>)
    ensures
        extends(intern(table, s).0, table),
        intern(table, s).0.len() <= table.len() + 1,
        distinct(table) ==> distinct(intern(table, s).0),
        table.len() <= usize::MAX ==> intern(table, s).1 < intern(table, s).0.len() && intern(
            table,
            s,
        ).0[intern(table, s).1 as int] == s,
{
    lemma_index_from(table, s, 0);
}

/// A node that refers within `small` refers within any larger count.
proof fn lemma_refs_grow(n: RNode, small: nat, large: nat)
    requires
        small <= large,
        refs_within(n, small),
    ensures
        refs_within(n, large),
    decreases n, 0nat, 0nat,
{
    match n {
        RNode::If { cond, then: yes, otherwise: no } => {
            lemma_prefix_grow(yes, yes.len(), small, large);
            lemma_prefix_grow(no, no.len(), small, large);
        },
        RNode::For { seq, body } => {
            lemma_prefix_grow(body, body.len(), small, large);
        },
        _ => {},
    }
}

/// Nodes that refer within `small` refer within any larger count.
proof fn lemma_prefix_grow(ns: Seq<RNode>, k: nat, small: nat, large: nat)
    requires
        small <= large,
        within_prefix(ns, k, small),
    ensures
        within_prefix(ns, k, large),
    decreases ns, 1nat, k,
{
    if k > 0 && k <= ns.len() {
        lemma_prefix_grow(ns, (k - 1) as nat, small, large);
        lemma_refs_grow(ns[k - 1], small, large);
    }
}

/// `push_static` adds only static text, so it keeps nodes within a count.
proof fn lemma_push_static_within(out: Seq<RNode>, t: Seq<char>, count: nat)
    requires
        all_within(out, count),
    ensures
        all_within(push_static(out, t), count),
{
    lemma_all_within(out, count);
    lemma_all_within(push_static(out, t), count);
    let r = push_static(out, t);
    assert forall|j: int| 0 <= j < r.len() implies #[trigger] refs_within(r[j], count) by {
        if j < out.len() - 1 || (j == out.len() - 1 && !(out.len() > 0 && out.last() is Static)) {
            assert(r[j] == out[j]);
        }
    }
}

/// Lowering the first `k` nodes extends the table, keeps it distinct, and refers only within
/// the table it ends with.
proof fn lemma_lower_prefix(ns: Seq<NodeV>, k: nat, table: Seq<Seq<char>>)
    ensures
        extends(lower_prefix(ns, k, table).1, table),
        distinct(table) ==> distinct(lower_prefix(ns, k, table).1),
        lower_prefix(ns, k, table).1.len() <= usize::MAX ==> all_within(
            lower_prefix(ns, k, table).0,
            lower_prefix(ns, k, table).1.len(),
        ),
    decreases ns, 1nat, k,
{
    if k == 0 || k > ns.len() {
        lemma_all_within(Seq::<RNode>::empty(), table.len());
    } else {
        let (out, t) = lower_prefix(ns, (k - 1) as nat, table);
        lemma_lower_prefix(ns, (k - 1) as nat, table);
        lemma_lower_step(out, ns[k - 1], t);
        let t2 = lower_step(out, ns[k - 1], t).1;
        if t2.len() <= usize::MAX {
            assert(t.len() <= t2.len());
        }
    }
}

/// Lowering one node after `out` extends the table, keeps it distinct, and keeps every node
/// within the table it ends with.
proof fn lemma_lower_step(out: Seq<RNode>, n: NodeV, table: Seq<Seq<char>>)
    ensures
        extends(lower_step(out, n, table).1, table),
        distinct(table) ==> distinct(lower_step(out, n, table).1),
        lower_step(out, n, table).1.len() <= usize::MAX && all_within(out, table.len())
            ==> all_within(lower_step(out, n, table).0, lower_step(out, n, table).1.len()),
    decreases n, 0nat, 0nat,
{
    let (r, t) = lower_step(out, n, table);
    lemma_all_within(out, table.len());
    lemma_all_within(out, t.len());
    lemma_all_within(r, t.len());
    match n {
        NodeV::Text { value, .. } => {
            if all_within(out, table.len()) {
                lemma_push_static_within(out, value, table.len());
            }
        },
        NodeV::Expr { source, attribute, .. } => {
            lemma_intern(table, source);
            if t.len() <= usize::MAX && all_within(out, table.len()) {
                assert forall|j: int| 0 <= j < r.len() implies #[trigger] refs_within(r[j], t.len()) by {
                    if j < out.len() {
                        assert(r[j] == out[j]);
                        lemma_refs_grow(out[j], table.len(), t.len());
                    }
                }
            }
        },
        NodeV::If { cond, then: yes, otherwise: no, .. } => {
            let (t1, c) = intern(table, cond);
            lemma_intern(table, cond);
            let (yes_out, t2) = lower_prefix(yes, yes.len(), t1);
            lemma_lower_prefix(yes, yes.len(), t1);
            let (no_out, t3) = lower_prefix(no, no.len(), t2);
            lemma_lower_prefix(no, no.len(), t2);
            if t.len() <= usize::MAX && all_within(out, table.len()) {
                assert(t == t3);
                lemma_prefix_grow(yes_out, yes_out.len(), t2.len(), t3.len());
                assert(refs_within(r.last(), t.len()));
                assert forall|j: int| 0 <= j < r.len() implies #[trigger] refs_within(r[j], t.len()) by {
                    if j < out.len() {
                        assert(r[j] == out[j]);
                        lemma_refs_grow(out[j], table.len(), t.len());
                    }
                }
            }
        },
        NodeV::For { seq, body, .. } => {
            let (t1, c) = intern(table, seq);
            lemma_intern(table, seq);
            let (body_out, t2) = lower_prefix(body, body.len(), t1);
            lemma_lower_prefix(body, body.len(), t1);
            if t.len() <= usize::MAX && all_within(out, table.len()) {
                assert(refs_within(r.last(), t.len()));
                assert forall|j: int| 0 <= j < r.len() implies #[trigger] refs_within(r[j], t.len()) by {
                    if j < out.len() {
                        assert(r[j] == out[j]);
                        lemma_refs_grow(out[j], table.len(), t.len());
                    }
                }
            }
        },
    }
}

/// A lowered descriptor refers only to expressions in its own table, and its table lists each
/// expression once.
pub proof fn lemma_lowered_well_formed(doc: DocumentV)
    requires
        spec_lower(doc).expressions.len() <= usize::MAX,
    ensures
        all_within(spec_lower(doc).nodes, spec_lower(doc).expressions.len()),
        distinct(spec_lower(doc).expressions),
{
    lemma_lower_prefix(doc.nodes, doc.nodes.len(), seq![]);
}

/// The expression sources of the first `k` nodes of `ns`, in the order lowering meets them.
pub open spec fn sources_prefix(ns: Seq<NodeV>, k: nat) -> Seq<Seq<char>>
    decreases ns, 1nat, k,
{
    if k == 0 || k > ns.len() {
        seq![]
    } else {
        sources_prefix(ns, (k - 1) as nat) + sources_node(ns[k - 1])
    }
}

/// The expression sources of node `n`: its own, a condition before its branches, a sequence
/// before its body.
pub open spec fn sources_node(n: NodeV) -> Seq<Seq<char>>
    decreases n, 0nat, 0nat,
{
    match n {
        NodeV::Text { .. } => seq![],
        NodeV::Expr { source, .. } => seq![source],
        NodeV::If { cond, then: yes, otherwise: no, .. } => seq![cond] + sources_prefix(yes, yes.len())
            + sources_prefix(no, no.len()),
        NodeV::For { seq, body, .. } => seq![seq] + sources_prefix(body, body.len()),
    }
}

/// The expression sources of `ns`, in the order lowering meets them.
pub open spec fn sources(ns: Seq<NodeV>) -> Seq<Seq<char>> {
    sources_prefix(ns, ns.len())
}

/// `table` with each of `srcs` interned in turn.
pub open spec fn intern_all(table: Seq<Seq<char>>, srcs: Seq<Seq<char>>) -> Seq<Seq<char>>
    decreases srcs.len(),
{
    if srcs.len() == 0 {
        table
    } else {
        intern(intern_all(table, srcs.drop_last()), srcs.last()).0
    }
}

/// Interning `a` then `b` is interning `a + b`.
proof fn lemma_intern_all_concat(table: Seq<Seq<char>>, a: Seq<Seq<char>>, b: Seq<Seq<char>>)
    ensures
        intern_all(table, a + b) == intern_all(intern_all(table, a), b),
    decreases b.len(),
{
    if b.len() == 0 {
        assert(a + b =~= a);
    } else {
        lemma_intern_all_concat(table, a, b.drop_last());
        assert((a + b).drop_last() =~= a + b.drop_last());
        assert((a + b).last() == b.last());
    }
}

/// Interning one source is `intern`.
proof fn lemma_intern_all_one(table: Seq<Seq<char>>, s: Seq<char>)
    ensures
        intern_all(table, seq![s]) == intern(table, s).0,
{
    assert(seq![s].drop_last() =~= Seq::<Seq<char>>::empty());
    assert(seq![s].last() == s);
    assert(intern_all(table, Seq::<Seq<char>>::empty()) == table);
    assert(intern_all(table, seq![s]) == intern(intern_all(table, seq![s].drop_last()), s).0);
}

/// Lowering nodes leaves the table their sources interned in turn.
proof fn lemma_prefix_table(ns: Seq<NodeV>, k: nat, table: Seq<Seq<char>>)
    ensures
        lower_prefix(ns, k, table).1 == intern_all(table, sources_prefix(ns, k)),
    decreases ns, 1nat, k,
{
    if k > 0 && k <= ns.len() {
        let (out, t) = lower_prefix(ns, (k - 1) as nat, table);
        lemma_prefix_table(ns, (k - 1) as nat, table);
        lemma_step_table(out, ns[k - 1], t);
        lemma_intern_all_concat(table, sources_prefix(ns, (k - 1) as nat), sources_node(ns[k - 1]));
    }
}

/// Lowering one node leaves the table its sources interned in turn.
proof fn lemma_step_table(out: Seq<RNode>, n: NodeV, table: Seq<Seq<char>>)
    ensures
        lower_step(out, n, table).1 == intern_all(table, sources_node(n)),
    decreases n, 0nat, 0nat,
{
    match n {
        NodeV::Text { .. } => {},
        NodeV::Expr { source, .. } => {
            lemma_intern_all_one(table, source);
        },
        NodeV::If { cond, then: yes, otherwise: no, .. } => {
            let t1 = intern(table, cond).0;
            lemma_intern_all_one(table, cond);
            lemma_prefix_table(yes, yes.len(), t1);
            let t2 = lower_prefix(yes, yes.len(), t1).1;
            lemma_prefix_table(no, no.len(), t2);
            lemma_intern_all_concat(table, seq![cond], sources_prefix(yes, yes.len()));
            lemma_intern_all_concat(
                table,
                seq![cond] + sources_prefix(yes, yes.len()),
                sources_prefix(no, no.len()),
            );
        },
        NodeV::For { seq, body, .. } => {
            let t1 = intern(table, seq).0;
            lemma_intern_all_one(table, seq);
            lemma_prefix_table(body, body.len(), t1);
            lemma_intern_all_concat(table, seq![seq], sources_prefix(body, body.len()));
        },
    }
}

/// The expression table of a lowered document is its expression sources, interned in the
/// order the document meets them. The markup plays no part.
pub proof fn lemma_table_of_sources(doc: DocumentV)
    ensures
        spec_lower(doc).expressions == intern_all(seq![], sources(doc.nodes)),
{
    lemma_prefix_table(doc.nodes, doc.nodes.len(), seq![]);
}

/// Two documents with the same expressions in the same order lower to the same expression
/// table: an edit to markup alone keeps the table, so the new descriptor can replace the old
/// one without recompiling.
pub proof fn lemma_same_expressions_same_table(a: DocumentV, b: DocumentV)
    requires
        sources(a.nodes) == sources(b.nodes),
    ensures
        spec_lower(a).expressions == spec_lower(b).expressions,
{
    lemma_table_of_sources(a);
    lemma_table_of_sources(b);
}

/// Where `s` first stands in `table`.
pub open spec fn index_in(table: Seq<Seq<char>>, s: Seq<char>) -> usize {
    match index_from(table, s, 0) {
        Some(i) => i as usize,
        None => 0,
    }
}

/// The descriptor nodes for the first `k` nodes of `ns`, given the final expression `table`: runs
/// of text merged into one static node, and every expression referred to by where it first
/// stands in the table.
pub open spec fn lowered_prefix(ns: Seq<NodeV>, k: nat, table: Seq<Seq<char>>) -> Seq<RNode>
    decreases ns, 1nat, k,
{
    if k == 0 || k > ns.len() {
        seq![]
    } else {
        lowered_after(lowered_prefix(ns, (k - 1) as nat, table), ns[k - 1], table)
    }
}

/// `out` followed by the descriptor node for `n`, given the final expression `table`.
pub open spec fn lowered_after(out: Seq<RNode>, n: NodeV, table: Seq<Seq<char>>) -> Seq<RNode>
    decreases n, 0nat, 0nat,
{
    match n {
        NodeV::Text { value, .. } => push_static(out, value),
        NodeV::Expr { source, attribute, .. } => out.push(
            if attribute {
                RNode::ExprAttr(index_in(table, source))
            } else {
                RNode::Expr(index_in(table, source))
            },
        ),
        NodeV::If { cond, then: yes, otherwise: no, .. } => out.push(
            RNode::If {
                cond: index_in(table, cond),
                then: lowered_prefix(yes, yes.len(), table),
                otherwise: lowered_prefix(no, no.len(), table),
            },
        ),
        NodeV::For { seq, body, .. } => out.push(
            RNode::For { seq: index_in(table, seq), body: lowered_prefix(body, body.len(), table) },
        ),
    }
}

/// A first place found in a table is the first place in any table that extends it.
proof fn lemma_index_from_extends(t: Seq<Seq<char>>, big: Seq<Seq<char>>, s: Seq<char>, j: int)
    requires
        extends(big, t),
        0 <= j,
        index_from(t, s, j) is Some,
    ensures
        index_from(big, s, j) == index_from(t, s, j),
    decreases t.len() - j,
{
    if j < t.len() && t[j] != s {
        lemma_index_from_extends(t, big, s, j + 1);
    }
}

/// Where `s` was interned is where it first stands in the table interning leaves.
proof fn lemma_intern_first(table: Seq<Seq<char>>, s: Seq<char>)
    requires
        table.len() <= usize::MAX,
    ensures
        index_from(intern(table, s).0, s, 0) == Some(intern(table, s).1 as int),
{
    lemma_index_from(table, s, 0);
    if index_from(table, s, 0) is None {
        lemma_index_from_pushed(table, s, 0);
    }
}

/// In `table.push(s)`, where `table` has no `s` from `j` on, `s` is first found at the end.
proof fn lemma_index_from_pushed(table: Seq<Seq<char>>, s: Seq<char>, j: int)
    requires
        0 <= j <= table.len(),
        forall|k: int| j <= k < table.len() ==> table[k] != s,
    ensures
        index_from(table.push(s), s, j) == Some(table.len() as int),
    decreases table.len() - j,
{
    if j < table.len() {
        assert(table.push(s)[j] == table[j]);
        lemma_index_from_pushed(table, s, j + 1);
    }
}

/// `extends` is transitive.
proof fn lemma_extends_trans(a: Seq<Seq<char>>, b: Seq<Seq<char>>, c: Seq<Seq<char>>)
    requires
        extends(a, b),
        extends(b, c),
    ensures
        extends(a, c),
{
}

/// Lowering the first `k` nodes gives the nodes `lowered_prefix` describes, for any final table
/// that extends the one lowering ends with.
proof fn lemma_lower_prefix_is_lowered(ns: Seq<NodeV>, k: nat, table: Seq<Seq<char>>, fin: Seq<Seq<char>>)
    requires
        extends(fin, lower_prefix(ns, k, table).1),
        fin.len() <= usize::MAX,
    ensures
        lower_prefix(ns, k, table).0 == lowered_prefix(ns, k, fin),
    decreases ns, 1nat, k,
{
    if k > 0 && k <= ns.len() {
        let (out, t) = lower_prefix(ns, (k - 1) as nat, table);
        lemma_lower_step(out, ns[k - 1], t);
        lemma_extends_trans(fin, lower_step(out, ns[k - 1], t).1, t);
        lemma_lower_prefix_is_lowered(ns, (k - 1) as nat, table, fin);
        lemma_lower_step_is_lowered(out, ns[k - 1], t, fin);
    }
}

/// Lowering one node gives what `lowered_after` describes, for any final table that extends
/// the one lowering ends with.
proof fn lemma_lower_step_is_lowered(out: Seq<RNode>, n: NodeV, table: Seq<Seq<char>>, fin: Seq<Seq<char>>)
    requires
        extends(fin, lower_step(out, n, table).1),
        fin.len() <= usize::MAX,
    ensures
        lower_step(out, n, table).0 == lowered_after(out, n, fin),
    decreases n, 0nat, 0nat,
{
    lemma_lower_step(out, n, table);
    lemma_extends_trans(fin, lower_step(out, n, table).1, table);
    match n {
        NodeV::Text { .. } => {},
        NodeV::Expr { source, .. } => {
            lemma_intern(table, source);
            let (t, i) = intern(table, source);
            lemma_intern_first(table, source);
            lemma_index_from_extends(t, fin, source, 0);
        },
        NodeV::If { cond, then: yes, otherwise: no, .. } => {
            let (t1, c) = intern(table, cond);
            lemma_intern(table, cond);
            lemma_intern_first(table, cond);
            let (yes_out, t2) = lower_prefix(yes, yes.len(), t1);
            lemma_lower_prefix(yes, yes.len(), t1);
            let (no_out, t3) = lower_prefix(no, no.len(), t2);
            lemma_lower_prefix(no, no.len(), t2);
            lemma_extends_trans(fin, t3, t2);
            lemma_extends_trans(t3, t2, t1);
            lemma_extends_trans(fin, t3, t1);
            lemma_index_from_extends(t1, fin, cond, 0);
            lemma_lower_prefix_is_lowered(yes, yes.len(), t1, fin);
            lemma_lower_prefix_is_lowered(no, no.len(), t2, fin);
        },
        NodeV::For { seq, body, .. } => {
            let (t1, c) = intern(table, seq);
            lemma_intern(table, seq);
            lemma_intern_first(table, seq);
            lemma_lower_prefix(body, body.len(), t1);
            let t2 = lower_prefix(body, body.len(), t1).1;
            lemma_extends_trans(fin, t2, t1);
            lemma_index_from_extends(t1, fin, seq, 0);
            lemma_lower_prefix_is_lowered(body, body.len(), t1, fin);
        },
    }
}

/// Whether the branches and bodies inside `n` never hold two static nodes side by side.
pub open spec fn statics_merged(n: RNode) -> bool
    decreases n, 0nat, 0nat,
{
    match n {
        RNode::If { then: yes, otherwise: no, .. } => merged_prefix(yes, yes.len()) && merged_prefix(
            no,
            no.len(),
        ),
        RNode::For { body, .. } => merged_prefix(body, body.len()),
        _ => true,
    }
}

/// Whether the first `k` nodes of `ns` never hold two static nodes side by side, at any depth.
pub open spec fn merged_prefix(ns: Seq<RNode>, k: nat) -> bool
    decreases ns, 1nat, k,
{
    if k == 0 || k > ns.len() {
        true
    } else {
        &&& merged_prefix(ns, (k - 1) as nat)
        &&& statics_merged(ns[k - 1])
        &&& k >= 2 ==> !(ns[k - 2] is Static && ns[k - 1] is Static)
    }
}

/// `merged_prefix` of a prefix depends only on the nodes in it.
proof fn lemma_merged_same_prefix(a: Seq<RNode>, b: Seq<RNode>, k: nat)
    requires
        k <= a.len(),
        k <= b.len(),
        forall|j: int| 0 <= j < k ==> a[j] == b[j],
    ensures
        merged_prefix(a, k) == merged_prefix(b, k),
    decreases k,
{
    if k > 0 {
        lemma_merged_same_prefix(a, b, (k - 1) as nat);
    }
}

/// Pushing a node that is merged inside, and is not a second static, keeps statics apart.
proof fn lemma_merged_push(out: Seq<RNode>, x: RNode)
    requires
        merged_prefix(out, out.len()),
        statics_merged(x),
        x is Static ==> out.len() == 0 || !(out.last() is Static),
    ensures
        merged_prefix(out.push(x), out.push(x).len()),
{
    lemma_merged_same_prefix(out.push(x), out, out.len());
}

/// Adding static text, merged into a static node that ends `out`, keeps statics apart.
proof fn lemma_push_static_merged(out: Seq<RNode>, t: Seq<char>)
    requires
        merged_prefix(out, out.len()),
    ensures
        merged_prefix(push_static(out, t), push_static(out, t).len()),
{
    if out.len() > 0 && out.last() is Static {
        let front = out.drop_last();
        lemma_merged_same_prefix(front, out, front.len());
        assert(merged_prefix(out, (out.len() - 1) as nat));
        if front.len() > 0 {
            assert(front.last() == out[out.len() - 2]);
        }
        lemma_merged_push(front, RNode::Static(out.last()->Static_0 + t));
    } else {
        lemma_merged_push(out, RNode::Static(t));
    }
}

/// The nodes `lowered_prefix` describes never hold two statics side by side.
proof fn lemma_lowered_prefix_merged(ns: Seq<NodeV>, k: nat, table: Seq<Seq<char>>)
    ensures
        merged_prefix(lowered_prefix(ns, k, table), lowered_prefix(ns, k, table).len()),
    decreases ns, 1nat, k,
{
    if k > 0 && k <= ns.len() {
        lemma_lowered_prefix_merged(ns, (k - 1) as nat, table);
        lemma_lowered_after_merged(lowered_prefix(ns, (k - 1) as nat, table), ns[k - 1], table);
    }
}

/// Adding the descriptor node for `n` keeps statics apart.
proof fn lemma_lowered_after_merged(out: Seq<RNode>, n: NodeV, table: Seq<Seq<char>>)
    requires
        merged_prefix(out, out.len()),
    ensures
        merged_prefix(lowered_after(out, n, table), lowered_after(out, n, table).len()),
    decreases n, 0nat, 0nat,
{
    match n {
        NodeV::Text { value, .. } => {
            lemma_push_static_merged(out, value);
        },
        NodeV::Expr { source, attribute, .. } => {
            let x = if attribute {
                RNode::ExprAttr(index_in(table, source))
            } else {
                RNode::Expr(index_in(table, source))
            };
            lemma_merged_push(out, x);
        },
        NodeV::If { cond, then: yes, otherwise: no, .. } => {
            lemma_lowered_prefix_merged(yes, yes.len(), table);
            lemma_lowered_prefix_merged(no, no.len(), table);
            lemma_merged_push(
                out,
                RNode::If {
                    cond: index_in(table, cond),
                    then: lowered_prefix(yes, yes.len(), table),
                    otherwise: lowered_prefix(no, no.len(), table),
                },
            );
        },
        NodeV::For { seq, body, .. } => {
            lemma_lowered_prefix_merged(body, body.len(), table);
            lemma_merged_push(
                out,
                RNode::For { seq: index_in(table, seq), body: lowered_prefix(body, body.len(), table) },
            );
        },
    }
}

/// What lowering does, node by node: the table lists the document's expressions once each, in
/// the order the document meets them; each run of text becomes one static node holding the run;
/// each expression, condition and sequence becomes a reference to where its source first stands
/// in the table, an expression inside an attribute value an attribute reference; branches and
/// loop bodies are lowered the same way.
pub proof fn lemma_lowering_described(doc: DocumentV)
    requires
        spec_lower(doc).expressions.len() <= usize::MAX,
    ensures
        spec_lower(doc).expressions == intern_all(seq![], sources(doc.nodes)),
        distinct(spec_lower(doc).expressions),
        spec_lower(doc).nodes == lowered_prefix(doc.nodes, doc.nodes.len(), spec_lower(doc).expressions),
        merged_prefix(spec_lower(doc).nodes, spec_lower(doc).nodes.len()),
{
    lemma_lowered_prefix_merged(doc.nodes, doc.nodes.len(), spec_lower(doc).expressions);
    lemma_table_of_sources(doc);
    lemma_lowered_well_formed(doc);
    lemma_lower_prefix_is_lowered(doc.nodes, doc.nodes.len(), seq![], spec_lower(doc).expressions);
}

/// Lower a document to a runtime descriptor.
pub fn lower(document: &Document) -> (r: Template)
    ensures
        r@ == spec_lower(document@),
        all_within(r@.nodes, r@.expressions.len()),
        distinct(r@.expressions),
{
    let mut expressions: Vec<String> = Vec::new();
    assert(expressions.deep_view() =~= Seq::<Seq<char>>::empty());
    let nodes = lower_nodes(&document.nodes, &mut expressions);
    proof {
        lemma_view_prefix(document.nodes@, document.nodes@.len());
    }
    let r = Template { nodes, expressions };
    let count = r.expressions.len();
    proof {
        assert(r@ == spec_lower(document@));
        assert(r@.expressions.len() == r.expressions@.len());
        lemma_lowered_well_formed(document@);
    }
    r
}

/// The index of `source` in `expressions`, adding it at the end when it is new.
fn intern_exec(expressions: &mut Vec<String>, source: &String) -> (r: usize)
    ensures
        (final(expressions).deep_view(), r) == intern(old(expressions).deep_view(), source@),
{
    let ghost table = expressions.deep_view();
    let mut i: usize = 0;
    while i < expressions.len()
        invariant
            expressions.deep_view() == table,
            table.len() == expressions@.len(),
            i <= expressions@.len(),
            index_from(table, source@, i as int) == index_from(table, source@, 0),
        decreases expressions@.len() - i,
    {
        let same = expressions[i] == *source;
        assert(table[i as int] == expressions@[i as int]@);
        if same {
            return i;
        }
        i += 1;
    }
    let owned = source.clone();
    expressions.push(owned);
    assert(expressions.deep_view() =~= table.push(source@));
    expressions.len() - 1
}

/// Lower a sequence of nodes, interning their expressions into `expressions`.
fn lower_nodes(nodes: &Vec<Node>, expressions: &mut Vec<String>) -> (r: Vec<RtNode>)
    ensures
        (rview_nodes(r@), final(expressions).deep_view()) == lower_prefix(
            view_nodes(nodes@),
            nodes@.len(),
            old(expressions).deep_view(),
        ),
    decreases nodes@, 1nat,
{
    let ghost ns = view_nodes(nodes@);
    proof {
        lemma_view_prefix(nodes@, nodes@.len());
    }
    let mut out: Vec<RtNode> = Vec::new();
    assert(rview_nodes(out@) =~= Seq::<RNode>::empty());
    let mut i: usize = 0;
    while i < nodes.len()
        invariant
            i <= nodes@.len(),
            ns == view_nodes(nodes@),
            ns.len() == nodes@.len(),
            forall|j: int| 0 <= j < nodes@.len() ==> #[trigger] ns[j] == view_node(nodes@[j]),
            (rview_nodes(out@), expressions.deep_view()) == lower_prefix(ns, i as nat, old(expressions).deep_view()),
        decreases nodes@.len() - i,
    {
        proof {
            assert(decreases_to!(nodes@ => nodes@[i as int]));
        }
        match &nodes[i] {
            Node::Text { value, span } => {
                let ghost o = rview_nodes(out@);
                let ghost t = expressions.deep_view();
                assert(ns[i as int] == NodeV::Text { value: value@, span: *span });
                assert(lower_step(o, ns[i as int], t) == (push_static(o, value@), t));
                push_static_exec(&mut out, value);
            },
            other => {
                lower_one(other, &mut out, expressions);
            },
        }
        i += 1;
    }
    out
}

/// Append static text, merged into the last node when that is static too.
fn push_static_exec(out: &mut Vec<RtNode>, value: &String)
    ensures
        rview_nodes(final(out)@) == push_static(rview_nodes(old(out)@), value@),
{
            let n = out.len();
    let merge = if n > 0 {
        match &out[n - 1] {
            RtNode::Static(_) => true,
            _ => false,
        }
    } else {
        false
    };
    proof {
        lemma_rview_prefix(out@, out@.len());
    }
    if merge {
        let ghost before = out@;
        assert(before == old(out)@);
        let last = out.pop();
        proof {
            assert(out@ =~= before.drop_last());
            lemma_rview_nodes_push(out@, before.last());
            assert(before =~= out@.push(before.last()));
        }
        match last {
            Some(RtNode::Static(mut previous)) => {
                let ghost prev = previous@;
                assert(rview_nodes(before).last() == RNode::Static(prev));
                previous.append(value.as_str());
                let ghost kept = out@;
                out.push(RtNode::Static(previous));
                proof {
                    lemma_rview_nodes_push(kept, out@.last());
                    assert(rview_nodes(kept) =~= rview_nodes(before).drop_last());
                    assert(rview_nodes(out@) =~= push_static(rview_nodes(before), value@));
                }
            },
            _ => {
                assert(false);
            },
        }
    } else {
        let copy = value.clone();
        let ghost kept = out@;
        assert(kept == old(out)@);
        assert(!(rview_nodes(kept).len() > 0 && rview_nodes(kept).last() is Static));
        out.push(RtNode::Static(copy));
        proof {
            lemma_rview_nodes_push(kept, out@.last());
            assert(rview_nodes(out@) =~= push_static(rview_nodes(kept), value@));
        }
    }
}

/// Lower `node` onto the end of `out`.
fn lower_one(node: &Node, out: &mut Vec<RtNode>, expressions: &mut Vec<String>)
    requires
        !(*node is Text),
    ensures
        rview_nodes(final(out)@) == lower_step(rview_nodes(old(out)@), view_node(*node), old(expressions).deep_view()).0,
        final(expressions).deep_view() == lower_step(rview_nodes(old(out)@), view_node(*node), old(expressions).deep_view()).1,
    decreases *node, 0nat,
{
    match node {
        Node::Text { .. } => {
            assert(false);
        },
        Node::Expr { source, attribute, .. } => {
            let index = intern_exec(expressions, source);
            let ghost kept = out@;
            if *attribute {
                out.push(RtNode::ExprAttr(index));
            } else {
                out.push(RtNode::Expr(index));
            }
            proof {
                lemma_rview_nodes_push(kept, out@.last());
            }
        },
        Node::If { cond, then, otherwise, .. } => {
            let c = intern_exec(expressions, cond);
            proof {
                assert(decreases_to!(*node => *then));
                assert(decreases_to!(*node => *otherwise));
                lemma_view_prefix(then@, then@.len());
                lemma_view_prefix(otherwise@, otherwise@.len());
            }
            let then_out = lower_nodes(then, expressions);
            let else_out = lower_nodes(otherwise, expressions);
            let ghost kept = out@;
            out.push(RtNode::If { cond: c, then: then_out, otherwise: else_out });
            proof {
                lemma_rview_nodes_push(kept, out@.last());
            }
        },
        Node::For { seq, body, .. } => {
            let s = intern_exec(expressions, seq);
            proof {
                assert(decreases_to!(*node => *body));
                lemma_view_prefix(body@, body@.len());
            }
            let body_out = lower_nodes(body, expressions);
            let ghost kept = out@;
            out.push(RtNode::For { seq: s, body: body_out });
            proof {
                lemma_rview_nodes_push(kept, out@.last());
            }
        },
    }
}

} // verus!
