//! Emit Rust source for a parsed document.
//!
//! Static markup becomes one `sink.raw` call per run, and expressions are pasted through verbatim
//! so that `rustc` type-checks them in place.
use vstd::prelude::*;
use vstd::string::StringExecFns;
use crate::compiler::ast::{lemma_view_prefix, view_node, view_nodes, Document, DocumentV, Node, NodeV, Span};
use crate::text::{chars_of, find_newline, push_char, string_from, strip_cr};

verus! {

/// `depth` levels of four-space indentation.
pub open spec fn pad(depth: nat) -> Seq<char>
    decreases depth,
{
    if depth == 0 {
        seq![]
    } else {
        pad((depth - 1) as nat) + "    "@
    }
}

/// One char as it stands inside a Rust string literal.
pub open spec fn literal_char(c: char) -> Seq<char> {
    if c == '"' {
        "\\\""@
    } else if c == '\\' {
        "\\\\"@
    } else if c == '\n' {
        "\\n"@
    } else if c == '\r' {
        "\\r"@
    } else if c == '\t' {
        "\\t"@
    } else {
        seq![c]
    }
}

/// The chars of `s` as they stand inside a Rust string literal.
pub open spec fn literal_body(s: Seq<char>) -> Seq<char>
    decreases s.len(),
{
    if s.len() == 0 {
        seq![]
    } else {
        literal_body(s.drop_last()) + literal_char(s.last())
    }
}

/// `s` as a Rust string literal.
pub open spec fn quote(s: Seq<char>) -> Seq<char> {
    seq!['"'] + literal_body(s) + seq!['"']
}

/// The write of a pending run of static text, if there is one.
pub open spec fn flush(pending: Seq<char>, indent: Seq<char>) -> Seq<char> {
    if pending.len() == 0 {
        seq![]
    } else {
        indent + "sink.raw("@ + quote(pending) + ")?;\n"@
    }
}

/// The code for the first `k` nodes of `ns` at `depth`, and the static text not yet written.
pub open spec fn emit_prefix(ns: Seq<NodeV>, k: nat, depth: nat) -> (Seq<char>, Seq<char>)
    decreases ns, 1nat, k,
{
    if k == 0 || k > ns.len() {
        (seq![], seq![])
    } else {
        let (out, pending) = emit_prefix(ns, (k - 1) as nat, depth);
        emit_step(out, pending, ns[k - 1], depth)
    }
}

/// Add node `n` to the code `out` with static text `pending` not yet written: text joins the
/// pending run; anything else first writes the run.
pub open spec fn emit_step(out: Seq<char>, pending: Seq<char>, n: NodeV, depth: nat) -> (Seq<char>, Seq<char>)
    decreases n, 1nat, 0nat,
{
    match n {
        NodeV::Text { value, .. } => (out, pending + value),
        _ => (out + flush(pending, pad(depth)) + node_code(n, depth), seq![]),
    }
}

/// The code for a node other than text.
pub open spec fn node_code(n: NodeV, depth: nat) -> Seq<char>
    decreases n, 0nat, 0nat,
{
    let indent = pad(depth);
    match n {
        NodeV::Text { .. } => seq![],
        NodeV::Expr { source, .. } => indent + "sink.escaped(&("@ + source + "))?;\n"@,
        NodeV::If { cond, then, otherwise, .. } => indent + "if "@ + cond + " {\n"@ + emit_nodes(then, depth + 1)
            + if otherwise.len() == 0 {
            indent + "}\n"@
        } else {
            indent + "} else {\n"@ + emit_nodes(otherwise, depth + 1) + indent + "}\n"@
        },
        NodeV::For { binding, seq, body, .. } => indent + "for "@ + binding + " in "@ + seq + " {\n"@
            + emit_nodes(body, depth + 1) + indent + "}\n"@,
    }
}

/// The code for `ns` at `depth`.
pub open spec fn emit_nodes(ns: Seq<NodeV>, depth: nat) -> Seq<char>
    decreases ns, 2nat, 0nat,
{
    let (out, pending) = emit_prefix(ns, ns.len(), depth);
    out + flush(pending, pad(depth))
}

/// A node standing alone emits its own code: no pending text is written before or after it.
proof fn lemma_single_node(n: NodeV, depth: nat)
    requires
        !(n is Text),
    ensures
        emit_nodes(seq![n], depth) == node_code(n, depth),
{
    let ns = seq![n];
    assert(emit_prefix(ns, 0, depth) == (Seq::<char>::empty(), Seq::<char>::empty()));
    assert(ns[0] == n);
    let step = emit_step(Seq::<char>::empty(), Seq::<char>::empty(), n, depth);
    assert(emit_prefix(ns, 1, depth) == step);
    assert(step.0 =~= node_code(n, depth));
    assert(step.1 =~= Seq::<char>::empty());
    assert(step.0 + flush(step.1, pad(depth)) =~= node_code(n, depth));
}

/// A conditional emits `if <cond> {`, then the code of its `then` nodes one level in, and, when
/// it has an `else` branch, `} else {` followed by the code of its `otherwise` nodes one level
/// in; it ends with `}`. The `then` code always comes before `} else {`, the `otherwise` code
/// after it.
pub proof fn lemma_if_emits_branches_in_order(
    cond: Seq<char>,
    then: Seq<NodeV>,
    otherwise: Seq<NodeV>,
    span: Span,
    depth: nat,
)
    ensures
        otherwise.len() == 0 ==> emit_nodes(seq![NodeV::If { cond, then, otherwise, span }], depth)
            == pad(depth) + "if "@ + cond + " {\n"@ + emit_nodes(then, depth + 1) + pad(depth) + "}\n"@,
        otherwise.len() > 0 ==> emit_nodes(seq![NodeV::If { cond, then, otherwise, span }], depth)
            == pad(depth) + "if "@ + cond + " {\n"@ + emit_nodes(then, depth + 1) + pad(depth)
            + "} else {\n"@ + emit_nodes(otherwise, depth + 1) + pad(depth) + "}\n"@,
{
    let n = NodeV::If { cond, then, otherwise, span };
    lemma_single_node(n, depth);
    let head = pad(depth) + "if "@ + cond + " {\n"@ + emit_nodes(then, depth + 1);
    if otherwise.len() == 0 {
        assert(head + (pad(depth) + "}\n"@) =~= head + pad(depth) + "}\n"@);
    } else {
        assert(head + (pad(depth) + "} else {\n"@ + emit_nodes(otherwise, depth + 1) + pad(depth) + "}\n"@)
            =~= head + pad(depth) + "} else {\n"@ + emit_nodes(otherwise, depth + 1) + pad(depth) + "}\n"@);
    }
}

/// The lines of `s` from `start` on, as `str::lines` splits them, each indented into the body
/// of the generated function.
pub open spec fn frontmatter_lines(s: Seq<char>, start: int) -> Seq<char>
    decreases s.len() - start,
{
    if start < 0 || start >= s.len() {
        seq![]
    } else {
        match find_newline(s, start) {
            Some(j) => if start <= j < s.len() {
                "        "@ + strip_cr(s.subrange(start, j)) + "\n"@ + frontmatter_lines(s, j + 1)
            } else {
                seq![]
            },
            None => "        "@ + s.subrange(start, s.len() as int) + "\n"@,
        }
    }
}

/// The Rust module `emit` produces for `doc` under `name`.
pub open spec fn spec_emit(name: Seq<char>, doc: DocumentV) -> Seq<char> {
    "// @generated from "@ + name + ".tri — do not edit\n"@ + "pub mod "@ + name + " {\n"@
        + "    use tri_core::{Render, Result, Sink};\n"@
        + "\n    #[allow(unused_variables)]\n"@
        + "    pub fn render(sink: &mut dyn Sink) -> Result<()> {\n"@ + match doc.frontmatter {
        Some(f) => frontmatter_lines(f, 0) + "\n"@,
        None => seq![],
    } + emit_nodes(doc.nodes, 2) + "        Ok(())\n"@ + "    }\n"@ + "}\n"@
}

/// Emit a `render` function for `document`; `name` becomes the component's module name.
pub fn emit(name: &str, document: &Document) -> (r: String)
    ensures
        r@ == spec_emit(name@, document@),
{
    let mut out = String::new();
    out.append("// @generated from ");
    out.append(name);
    out.append(".tri — do not edit\n");
    out.append("pub mod ");
    out.append(name);
    out.append(" {\n");
    out.append("    use tri_core::{Render, Result, Sink};\n");
    out.append("\n    #[allow(unused_variables)]\n");
    out.append("    pub fn render(sink: &mut dyn Sink) -> Result<()> {\n");
    let ghost head = out@;
    match &document.frontmatter {
        Some(frontmatter) => {
            let cs = chars_of(frontmatter.as_str());
            push_lines(&mut out, &cs, 0);
            out.append("\n");
        },
        None => {},
    }
    let ghost front = out@;
    let indent = pad_exec(2);
    emit_nodes_exec(&document.nodes, Ghost(2), &indent, &mut out);
    out.append("        Ok(())\n");
    out.append("    }\n");
    out.append("}\n");
    assert(out@ =~= spec_emit(name@, document@));
    out
}

/// Append the indented lines of `cs[start..]`.
fn push_lines(out: &mut String, cs: &Vec<char>, start: usize)
    requires
        start <= cs@.len(),
    ensures
        final(out)@ == old(out)@ + frontmatter_lines(cs@, start as int),
    decreases cs@.len() - start,
{
    if start >= cs.len() {
        assert(old(out)@ + Seq::<char>::empty() =~= old(out)@);
        return ;
    }
    let mut j = start;
    while j < cs.len() && cs[j] != '\n'
        invariant
            start <= j <= cs@.len(),
            find_newline(cs@, j as int) == find_newline(cs@, start as int),
        decreases cs@.len() - j,
    {
        j += 1;
    }
    out.append("        ");
    if j < cs.len() {
        let end = if j > start && cs[j - 1] == '\r' {
            j - 1
        } else {
            j
        };
        assert(cs@.subrange(start as int, end as int) == strip_cr(cs@.subrange(start as int, j as int)));
        let line = string_from(cs, start, end);
        out.append(line.as_str());
        out.append("\n");
        let ghost mid = out@;
        push_lines(out, cs, j + 1);
        assert(final(out)@ =~= old(out)@ + frontmatter_lines(cs@, start as int));
    } else {
        let line = string_from(cs, start, j);
        out.append(line.as_str());
        out.append("\n");
        assert(out@ =~= old(out)@ + frontmatter_lines(cs@, start as int));
    }
}

/// `s` as a Rust string literal.
fn quote_exec(s: &String) -> (r: String)
    ensures
        r@ == quote(s@),
{
    let cs = chars_of(s.as_str());
    let mut out = String::new();
    push_char(&mut out, '"');
    let mut i: usize = 0;
    while i < cs.len()
        invariant
            i <= cs@.len(),
            cs@ == s@,
            out@ == seq!['"'] + literal_body(cs@.take(i as int)),
        decreases cs@.len() - i,
    {
        let c = cs[i];
        if c == '"' {
            out.append("\\\"");
        } else if c == '\\' {
            out.append("\\\\");
        } else if c == '\n' {
            out.append("\\n");
        } else if c == '\r' {
            out.append("\\r");
        } else if c == '\t' {
            out.append("\\t");
        } else {
            push_char(&mut out, c);
        }
        assert(cs@.take(i + 1).drop_last() =~= cs@.take(i as int));
        i += 1;
    }
    assert(cs@.take(cs@.len() as int) =~= cs@);
    push_char(&mut out, '"');
    out
}

/// `depth` levels of indentation.
fn pad_exec(depth: usize) -> (r: String)
    ensures
        r@ == pad(depth as nat),
{
    let mut out = String::new();
    let mut k: usize = 0;
    while k < depth
        invariant
            k <= depth,
            out@ == pad(k as nat),
        decreases depth - k,
    {
        out.append("    ");
        k += 1;
    }
    out
}

/// Write the pending run of static text, if any, and empty it.
fn flush_exec(pending: &mut String, indent: &String, out: &mut String)
    ensures
        final(out)@ == old(out)@ + flush(old(pending)@, indent@),
        final(pending)@ == Seq::<char>::empty(),
{
    if pending.as_str().is_empty() {
        assert(out@ =~= old(out)@ + flush(old(pending)@, indent@));
        return ;
    }
    out.append(indent.as_str());
    out.append("sink.raw(");
    let q = quote_exec(pending);
    out.append(q.as_str());
    out.append(")?;\n");
    assert(out@ =~= old(out)@ + flush(old(pending)@, indent@));
    *pending = String::new();
}

/// Append the code for `nodes` at `depth`, with `indent` the indentation of that depth.
fn emit_nodes_exec(nodes: &Vec<Node>, Ghost(depth): Ghost<nat>, indent: &String, out: &mut String)
    requires
        indent@ == pad(depth),
    ensures
        final(out)@ == old(out)@ + emit_nodes(view_nodes(nodes@), depth),
    decreases nodes@, 2nat,
{
    let ghost ns = view_nodes(nodes@);
    proof {
        lemma_view_prefix(nodes@, nodes@.len());
    }
    let mut pending = String::new();
    let ghost mut emitted: Seq<char> = seq![];
    assert(out@ =~= old(out)@ + emitted);
    let mut i: usize = 0;
    while i < nodes.len()
        invariant
            i <= nodes@.len(),
            indent@ == pad(depth),
            ns == view_nodes(nodes@),
            ns.len() == nodes@.len(),
            forall|j: int| 0 <= j < nodes@.len() ==> #[trigger] ns[j] == view_node(nodes@[j]),
            emit_prefix(ns, i as nat, depth) == (emitted, pending@),
            out@ == old(out)@ + emitted,
        decreases nodes@.len() - i,
    {
        let ghost before = out@;
        proof {
            assert(decreases_to!(nodes@ => nodes@[i as int]));
        }
        match &nodes[i] {
            Node::Text { value, span } => {
                assert(ns[i as int] == NodeV::Text { value: value@, span: *span });
                assert(emit_prefix(ns, (i + 1) as nat, depth) == emit_step(emitted, pending@, ns[i as int], depth));
                pending.append(value.as_str());
            },
            other => {
                let ghost p = pending@;
                assert(!(ns[i as int] is Text));
                assert(emit_prefix(ns, (i + 1) as nat, depth) == emit_step(emitted, p, ns[i as int], depth));
                flush_exec(&mut pending, indent, out);
                emit_node_exec(other, Ghost(depth), indent, out);
                proof {
                    emitted = emitted + flush(p, pad(depth)) + node_code(ns[i as int], depth);
                    assert(out@ =~= old(out)@ + emitted);
                }
            },
        }
        i += 1;
    }
    let ghost p = pending@;
    flush_exec(&mut pending, indent, out);
    assert(out@ =~= old(out)@ + emit_nodes(ns, depth));
}

/// Append the code for a node other than text.
fn emit_node_exec(node: &Node, Ghost(depth): Ghost<nat>, indent: &String, out: &mut String)
    requires
        indent@ == pad(depth),
    ensures
        final(out)@ == old(out)@ + node_code(view_node(*node), depth),
    decreases *node, 1nat,
{
    match node {
        Node::Text { .. } => {
            assert(out@ =~= old(out)@ + Seq::<char>::empty());
        },
        Node::Expr { source, .. } => {
            out.append(indent.as_str());
            out.append("sink.escaped(&(");
            out.append(source.as_str());
            out.append("))?;\n");
            assert(out@ =~= old(out)@ + node_code(view_node(*node), depth));
        },
        Node::If { .. } => {
            emit_if(node, Ghost(depth), indent, out);
        },
        Node::For { .. } => {
            emit_for(node, Ghost(depth), indent, out);
        },
    }
}

/// Append the code for an `if` node.
fn emit_if(node: &Node, Ghost(depth): Ghost<nat>, indent: &String, out: &mut String)
    requires
        indent@ == pad(depth),
        *node is If,
    ensures
        final(out)@ == old(out)@ + node_code(view_node(*node), depth),
    decreases *node, 0nat,
{
    let mut inner = indent.clone();
    inner.append("    ");
    assert(inner@ == pad(depth + 1));
    match node {
        Node::If { cond, then, otherwise, .. } => {
            proof {
                assert(decreases_to!(*node => *then));
                assert(decreases_to!(*node => *otherwise));
                lemma_view_prefix(otherwise@, otherwise@.len());
            }
            let ghost o0 = out@;
            out.append(indent.as_str());
            out.append("if ");
            out.append(cond.as_str());
            out.append(" {\n");
            let ghost o1 = out@;
            assert(o1 =~= o0 + (pad(depth) + "if "@ + cond@ + " {\n"@));
            emit_nodes_exec(then, Ghost(depth + 1), &inner, out);
            let ghost o2 = out@;
            let ghost tail: Seq<char>;
            if otherwise.len() == 0 {
                out.append(indent.as_str());
                out.append("}\n");
                proof {
                    tail = pad(depth) + "}\n"@;
                    assert(out@ =~= o2 + tail);
                }
            } else {
                out.append(indent.as_str());
                out.append("} else {\n");
                let ghost o3 = out@;
                emit_nodes_exec(otherwise, Ghost(depth + 1), &inner, out);
                let ghost o4 = out@;
                out.append(indent.as_str());
                out.append("}\n");
                proof {
                    tail = pad(depth) + "} else {\n"@ + emit_nodes(view_nodes(otherwise@), depth + 1) + pad(depth) + "}\n"@;
                    assert(out@ =~= o2 + tail);
                }
            }
            assert(out@ =~= old(out)@ + node_code(view_node(*node), depth));
        },
        _ => {
            assert(false);
        },
    }
}

/// Append the code for a `for` node.
fn emit_for(node: &Node, Ghost(depth): Ghost<nat>, indent: &String, out: &mut String)
    requires
        indent@ == pad(depth),
        *node is For,
    ensures
        final(out)@ == old(out)@ + node_code(view_node(*node), depth),
    decreases *node, 0nat,
{
    let mut inner = indent.clone();
    inner.append("    ");
    assert(inner@ == pad(depth + 1));
    match node {
        Node::For { binding, seq, body, .. } => {
            proof {
                assert(decreases_to!(*node => *body));
            }
            let ghost o0 = out@;
            out.append(indent.as_str());
            out.append("for ");
            out.append(binding.as_str());
            out.append(" in ");
            out.append(seq.as_str());
            out.append(" {\n");
            let ghost o1 = out@;
            assert(o1 =~= o0 + (pad(depth) + "for "@ + binding@ + " in "@ + seq@ + " {\n"@));
            emit_nodes_exec(body, Ghost(depth + 1), &inner, out);
            let ghost o2 = out@;
            out.append(indent.as_str());
            out.append("}\n");
            assert(out@ =~= o2 + (pad(depth) + "}\n"@));
            assert(out@ =~= old(out)@ + node_code(view_node(*node), depth));
        },
        _ => {
            assert(false);
        },
    }
}

} // verus!
