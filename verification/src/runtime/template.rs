//! Template descriptors and the walker that renders them against compiled bindings.
use vstd::prelude::*;
use crate::runtime::error::Error;
use crate::runtime::sink::{escape, escape_char, Sink, StringSink};
use crate::text::push_char;
use crate::runtime::tracking::Recorder;

verus! {

/// One node of a template descriptor.
///
/// Expressions are held as indices into a table of compiled code, never as source.
#[derive(Debug, PartialEq, Eq)]
pub enum Node {
    /// A run of static markup, written through without escaping.
    Static(String),
    /// Write expression `index`, escaped for text content.
    Expr(usize),
    /// Write expression `index`, escaped for an attribute value.
    ExprAttr(usize),
    /// Branch on expression `cond`.
    If {
        /// Index of the condition expression.
        cond: usize,
        /// Rendered when the condition holds.
        then: Vec<Node>,
        /// Rendered when it does not.
        otherwise: Vec<Node>,
    },
    /// Repeat `body` for each item of expression `seq`.
    For {
        /// Index of the sequence expression.
        seq: usize,
        /// Rendered once per item, against the item's own bindings.
        body: Vec<Node>,
    },
}

/// The view of a descriptor [`Node`].
pub enum RNode {
    Static(Seq<char>),
    Expr(usize),
    ExprAttr(usize),
    If { cond: usize, then: Seq<RNode>, otherwise: Seq<RNode> },
    For { seq: usize, body: Seq<RNode> },
}

/// The view of one descriptor node.
pub open spec fn rview_node(n: Node) -> RNode
    decreases n, 0nat,
{
    match n {
        Node::Static(s) => RNode::Static(s@),
        Node::Expr(i) => RNode::Expr(i),
        Node::ExprAttr(i) => RNode::ExprAttr(i),
        Node::If { cond, then, otherwise } => RNode::If {
            cond,
            then: rview_prefix(then@, then@.len()),
            otherwise: rview_prefix(otherwise@, otherwise@.len()),
        },
        Node::For { seq, body } => RNode::For { seq, body: rview_prefix(body@, body@.len()) },
    }
}

/// The views of the first `k` descriptor nodes of `ns`.
pub open spec fn rview_prefix(ns: Seq<Node>, k: nat) -> Seq<RNode>
    decreases ns, k,
{
    if k == 0 || k > ns.len() {
        seq![]
    } else {
        rview_prefix(ns, (k - 1) as nat).push(rview_node(ns[k - 1]))
    }
}

/// The views of a sequence of descriptor nodes.
pub open spec fn rview_nodes(ns: Seq<Node>) -> Seq<RNode> {
    rview_prefix(ns, ns.len())
}

impl View for Node {
    type V = RNode;

    open spec fn view(&self) -> RNode {
        rview_node(*self)
    }
}

/// `rview_nodes` maps each node to its view.
pub proof fn lemma_rview_prefix(ns: Seq<Node>, k: nat)
    requires
        k <= ns.len(),
    ensures
        rview_prefix(ns, k).len() == k,
        forall|i: int| 0 <= i < k ==> #[trigger] rview_prefix(ns, k)[i] == rview_node(ns[i]),
    decreases k,
{
    if k > 0 {
        lemma_rview_prefix(ns, (k - 1) as nat);
    }
}

/// Pushing a node pushes its view.
pub proof fn lemma_rview_nodes_push(ns: Seq<Node>, n: Node)
    ensures
        rview_nodes(ns.push(n)) == rview_nodes(ns).push(rview_node(n)),
{
    lemma_rview_prefix(ns.push(n), ns.len() + 1);
    lemma_rview_prefix(ns, ns.len());
    assert(rview_nodes(ns.push(n)) =~= rview_nodes(ns).push(rview_node(n)));
}

/// A parsed template: the shape of a component's output, with its expressions by index.
///
/// `expressions` holds the source text of each expression purely as an identity check: two
/// parses whose expression lists match can swap descriptors at runtime.
#[derive(Debug, PartialEq, Eq)]
pub struct Template {
    /// The node tree.
    pub nodes: Vec<Node>,
    /// Source text of each expression, indexed as the nodes reference them.
    pub expressions: Vec<String>,
}

/// The view of a [`Template`].
pub struct TemplateV {
    pub nodes: Seq<RNode>,
    pub expressions: Seq<Seq<char>>,
}

impl View for Template {
    type V = TemplateV;

    open spec fn view(&self) -> TemplateV {
        TemplateV { nodes: rview_nodes(self.nodes@), expressions: self.expressions.deep_view() }
    }
}

impl Default for Template {
    fn default() -> (r: Self)
        ensures
            r@.nodes == Seq::<RNode>::empty(),
            r@.expressions == Seq::<Seq<char>>::empty(),
    {
        let r = Template { nodes: Vec::new(), expressions: Vec::new() };
        assert(r@.nodes =~= Seq::<RNode>::empty());
        assert(r@.expressions =~= Seq::<Seq<char>>::empty());
        r
    }
}

impl Template {
    /// Whether `other` can replace this descriptor without recompiling.
    ///
    /// True exactly when the expression tables are identical, which is the condition under which
    /// the compiled thunks remain valid.
    pub fn is_hot_swappable_with(&self, other: &Template) -> (r: bool)
        ensures
            r == (self@.expressions == other@.expressions),
    {
        let a = &self.expressions;
        let b = &other.expressions;
        if a.len() != b.len() {
            assert(a.deep_view().len() != b.deep_view().len());
            return false;
        }
        let mut i: usize = 0;
        while i < a.len()
            invariant
                a.len() == b.len(),
                i <= a.len(),
                a.deep_view().len() == a@.len(),
                b.deep_view().len() == b@.len(),
                a.deep_view() == self@.expressions,
                b.deep_view() == other@.expressions,
                forall|j: int| 0 <= j < i ==> a.deep_view()[j] == b.deep_view()[j],
            decreases a.len() - i,
        {
            let same = a[i] == b[i];
            assert(a.deep_view()[i as int] == a@[i as int]@);
            assert(b.deep_view()[i as int] == b@[i as int]@);
            if !same {
                assert(self@.expressions[i as int] != other@.expressions[i as int]);
                return false;
            }
            i += 1;
        }
        assert(a.deep_view() =~= b.deep_view());
        true
    }
}

/// The compiled half of a template: everything the descriptor cannot do itself.
///
/// An implementation is what codegen emits. Rendering never evaluates an expression: it asks the
/// bindings, which are ordinary compiled Rust. The `spec_*` functions say what each method does,
/// so that a render can be stated over them.
pub trait Bindings: Sized {
    /// What expression `index` writes, or `None` if writing it fails. An implementation that
    /// is not verified leaves it unspecified.
    closed spec fn spec_value(&self, index: usize) -> Option<Seq<char>> {
        arbitrary()
    }

    /// Expression `index` as a condition.
    closed spec fn spec_truthy(&self, index: usize) -> bool {
        arbitrary()
    }

    /// How many items expression `index` yields.
    closed spec fn spec_seq_len(&self, index: usize) -> usize {
        arbitrary()
    }

    /// Bindings for item `item` of sequence `index`.
    closed spec fn spec_seq_item(&self, index: usize, item: usize) -> Option<Self> {
        arbitrary()
    }

    /// The error that writing expression `index` reports when it fails on its own, with a sink
    /// that refused nothing.
    closed spec fn spec_failure(&self, index: usize) -> Error {
        arbitrary()
    }

    /// Write expression `index` into the sink, escaped.
    fn value<S: Sink>(&self, index: usize, sink: &mut S) -> (r: Result<(), Error>)
        ensures
            r is Ok ==> self.spec_value(index) is Some,
            r is Ok ==> final(sink).written() == old(sink).written() + self.spec_value(index)->0,
            self.spec_value(index) is None ==> r is Err,
            final(sink).refusals() >= old(sink).refusals(),
            final(sink).refusals() == old(sink).refusals() ==> match self.spec_value(index) {
                Some(_) => r is Ok,
                None => r == Err::<(), Error>(self.spec_failure(index)),
            };

    /// Evaluate expression `index` as a condition.
    fn truthy(&self, index: usize) -> (r: bool)
        ensures
            r == self.spec_truthy(index);

    /// How many items expression `index` yields.
    fn seq_len(&self, index: usize) -> (r: usize)
        ensures
            r == self.spec_seq_len(index);

    /// Bindings for item `item` of sequence `index`.
    fn seq_item(&self, index: usize, item: usize) -> (r: Option<&Self>)
        ensures
            r matches Some(c) ==> self.spec_seq_item(index, item) == Some(*c),
            r is None ==> self.spec_seq_item(index, item) is None;
}

/// Why a render stopped: an expression index past the table, or a binding that failed.
pub enum Fault {
    Unknown { index: usize, available: usize },
    Binding(Error),
}

/// Escape the quotes of text already escaped for content, so that it can stand in an
/// attribute value.
pub open spec fn quote_char(c: char) -> Seq<char> {
    if c == '"' {
        "&quot;"@
    } else if c == '\'' {
        "&#39;"@
    } else {
        seq![c]
    }
}

/// `s` with its quotes escaped.
pub open spec fn quote_escape(s: Seq<char>) -> Seq<char>
    decreases s.len(),
{
    if s.len() == 0 {
        seq![]
    } else {
        quote_escape(s.drop_last()) + quote_char(s.last())
    }
}

/// Quote-escaping distributes over concatenation.
proof fn lemma_quote_escape_concat(a: Seq<char>, b: Seq<char>)
    ensures
        quote_escape(a + b) == quote_escape(a) + quote_escape(b),
    decreases b.len(),
{
    if b.len() == 0 {
        assert(a + b =~= a);
    } else {
        lemma_quote_escape_concat(a, b.drop_last());
        assert((a + b).drop_last() =~= a + b.drop_last());
        assert((a + b).last() == b.last());
    }
}

/// Text with no quote in it is left alone by quote-escaping.
proof fn lemma_quote_escape_plain(s: Seq<char>)
    requires
        forall|i: int| 0 <= i < s.len() ==> s[i] != '"' && s[i] != '\'',
    ensures
        quote_escape(s) == s,
    decreases s.len(),
{
    if s.len() > 0 {
        lemma_quote_escape_plain(s.drop_last());
        assert(s.drop_last().push(s.last()) =~= s);
    }
}

/// Escaping text for an attribute value in two steps, content first and quotes after, is
/// escaping it for an attribute value: no entity is escaped twice.
pub proof fn lemma_attribute_escape_in_two_steps(s: Seq<char>)
    ensures
        quote_escape(escape(s, false)) == escape(s, true),
    decreases s.len(),
{
    if s.len() > 0 {
        let c = s.last();
        lemma_attribute_escape_in_two_steps(s.drop_last());
        lemma_quote_escape_concat(escape(s.drop_last(), false), escape_char(c, false));
        reveal_strlit("&amp;");
        reveal_strlit("&lt;");
        reveal_strlit("&gt;");
        reveal_strlit("&quot;");
        reveal_strlit("&#39;");
        if c == '&' || c == '<' || c == '>' {
            lemma_quote_escape_plain(escape_char(c, false));
        } else {
            assert(escape_char(c, false) =~= seq![c]);
            assert(seq![c].drop_last() =~= Seq::<char>::empty());
            assert(seq![c].last() == c);
            assert(quote_escape(Seq::<char>::empty()) =~= Seq::<char>::empty());
            assert(Seq::<char>::empty() + quote_char(c) =~= quote_char(c));
            assert(quote_escape(seq![c]) == quote_char(c));
        }
    }
}

/// Escaped text holds no `<` or `>`, and when escaped for an attribute no quote either: what a
/// binding writes escaped cannot open a tag or close an attribute value.
pub proof fn lemma_escaped_is_inert(s: Seq<char>, attribute: bool)
    ensures
        forall|i: int|
            0 <= i < escape(s, attribute).len() ==> {
                let c = #[trigger] escape(s, attribute)[i];
                c != '<' && c != '>' && (attribute ==> c != '"' && c != '\'')
            },
    decreases s.len(),
{
    if s.len() > 0 {
        lemma_escaped_is_inert(s.drop_last(), attribute);
        reveal_strlit("&amp;");
        reveal_strlit("&lt;");
        reveal_strlit("&gt;");
        reveal_strlit("&quot;");
        reveal_strlit("&#39;");
        let front = escape(s.drop_last(), attribute);
        let tail = escape_char(s.last(), attribute);
        assert forall|i: int| 0 <= i < escape(s, attribute).len() implies {
            let c = #[trigger] escape(s, attribute)[i];
            c != '<' && c != '>' && (attribute ==> c != '"' && c != '\'')
        } by {
            if i < front.len() {
                assert(escape(s, attribute)[i] == front[i]);
            } else {
                assert(escape(s, attribute)[i] == tail[i - front.len()]);
            }
        }
    }
}

/// Output and the set of expression indices read, for nodes `ns[..k]`.
pub open spec fn spec_walk_prefix<B: Bindings>(ns: Seq<RNode>, k: nat, count: usize, b: B) -> Result<
    (Seq<char>, Set<usize>),
    Fault,
>
    decreases ns, 1nat, k,
{
    if k == 0 || k > ns.len() {
        Ok((seq![], Set::empty()))
    } else {
        match spec_walk_prefix(ns, (k - 1) as nat, count, b) {
            Err(f) => Err(f),
            Ok((out, reads)) => match spec_node(ns[k - 1], count, b) {
                Err(f) => Err(f),
                Ok((out2, reads2)) => Ok((out + out2, reads + reads2)),
            },
        }
    }
}

/// Output and reads of rendering `ns` against `b`, with `count` expressions in the table.
pub open spec fn spec_walk<B: Bindings>(ns: Seq<RNode>, count: usize, b: B) -> Result<(Seq<char>, Set<usize>), Fault> {
    spec_walk_prefix(ns, ns.len(), count, b)
}

/// Output and reads of one node.
pub open spec fn spec_node<B: Bindings>(n: RNode, count: usize, b: B) -> Result<(Seq<char>, Set<usize>), Fault>
    decreases n, 0nat, 0nat,
{
    match n {
        RNode::Static(s) => Ok((s, Set::empty())),
        RNode::Expr(i) => if i >= count {
            Err(Fault::Unknown { index: i, available: count })
        } else {
            match b.spec_value(i) {
                None => Err(Fault::Binding(b.spec_failure(i))),
                Some(t) => Ok((t, set![i])),
            }
        },
        RNode::ExprAttr(i) => if i >= count {
            Err(Fault::Unknown { index: i, available: count })
        } else {
            match b.spec_value(i) {
                None => Err(Fault::Binding(b.spec_failure(i))),
                Some(t) => Ok((quote_escape(t), set![i])),
            }
        },
        RNode::If { cond, then, otherwise } => if cond >= count {
            Err(Fault::Unknown { index: cond, available: count })
        } else {
            let branch = if b.spec_truthy(cond) {
                spec_walk_prefix(then, then.len(), count, b)
            } else {
                spec_walk_prefix(otherwise, otherwise.len(), count, b)
            };
            match branch {
                Err(f) => Err(f),
                Ok((out, reads)) => Ok((out, reads.insert(cond))),
            }
        },
        RNode::For { seq, body } => if seq >= count {
            Err(Fault::Unknown { index: seq, available: count })
        } else {
            match spec_items(body, count, b, seq, b.spec_seq_len(seq) as nat) {
                Err(f) => Err(f),
                Ok((out, reads)) => Ok((out, reads.insert(seq))),
            }
        },
    }
}

/// Output and reads of a loop body rendered for items `0..k` of sequence `seq`; items that the
/// bindings do not hand out are skipped.
pub open spec fn spec_items<B: Bindings>(body: Seq<RNode>, count: usize, b: B, seq: usize, k: nat) -> Result<
    (Seq<char>, Set<usize>),
    Fault,
>
    decreases body, 2nat, k,
{
    if k == 0 {
        Ok((seq![], Set::empty()))
    } else {
        match spec_items(body, count, b, seq, (k - 1) as nat) {
            Err(f) => Err(f),
            Ok((out, reads)) => match b.spec_seq_item(seq, (k - 1) as usize) {
                None => Ok((out, reads)),
                Some(c) => match spec_walk_prefix(body, body.len(), count, c) {
                    Err(f) => Err(f),
                    Ok((out2, reads2)) => Ok((out + out2, reads + reads2)),
                },
            },
        }
    }
}

/// Output of rendering `template` against `b`, or why it fails.
pub open spec fn spec_render<B: Bindings>(template: TemplateV, b: B) -> Result<Seq<char>, Fault> {
    match spec_walk(template.nodes, template.expressions.len() as usize, b) {
        Ok((out, _)) => Ok(out),
        Err(f) => Err(f),
    }
}


/// Whether every expression that node `n` refers to, at any depth, lies below `count`.
pub open spec fn refs_within(n: RNode, count: nat) -> bool
    decreases n, 0nat, 0nat,
{
    match n {
        RNode::Static(_) => true,
        RNode::Expr(i) => i < count,
        RNode::ExprAttr(i) => i < count,
        RNode::If { cond, then: yes, otherwise: no } => cond < count && within_prefix(
            yes,
            yes.len(),
            count,
        ) && within_prefix(no, no.len(), count),
        RNode::For { seq, body } => seq < count && within_prefix(body, body.len(), count),
    }
}

/// Whether the first `k` nodes of `ns` refer only to expressions below `count`.
pub open spec fn within_prefix(ns: Seq<RNode>, k: nat, count: nat) -> bool
    decreases ns, 1nat, k,
{
    if k == 0 || k > ns.len() {
        true
    } else {
        within_prefix(ns, (k - 1) as nat, count) && refs_within(ns[k - 1], count)
    }
}

/// Whether every expression that the nodes `ns` refer to, at any depth, lies below `count`.
pub open spec fn all_within(ns: Seq<RNode>, count: nat) -> bool {
    within_prefix(ns, ns.len(), count)
}

/// `within_prefix` holds exactly when each of the first `k` nodes refers within `count`.
pub proof fn lemma_within_prefix(ns: Seq<RNode>, k: nat, count: nat)
    requires
        k <= ns.len(),
    ensures
        within_prefix(ns, k, count) <==> forall|j: int| 0 <= j < k ==> #[trigger] refs_within(ns[j], count),
    decreases k,
{
    if k > 0 {
        lemma_within_prefix(ns, (k - 1) as nat, count);
        if within_prefix(ns, k, count) {
            assert forall|j: int| 0 <= j < k implies #[trigger] refs_within(ns[j], count) by {
                if j < k - 1 {
                    assert(within_prefix(ns, (k - 1) as nat, count));
                }
            }
        }
        if forall|j: int| 0 <= j < k ==> #[trigger] refs_within(ns[j], count) {
            assert forall|j: int| 0 <= j < k - 1 implies #[trigger] refs_within(ns[j], count) by {
                assert(refs_within(ns[j], count));
            }
            assert(refs_within(ns[k - 1], count));
        }
    }
}

/// `all_within` holds exactly when each node refers within `count`.
pub proof fn lemma_all_within(ns: Seq<RNode>, count: nat)
    ensures
        all_within(ns, count) <==> forall|j: int| 0 <= j < ns.len() ==> #[trigger] refs_within(ns[j], count),
{
    lemma_within_prefix(ns, ns.len(), count);
}

/// Whether every bindings value of type `B` writes every expression it is asked for.
pub open spec fn writes_every_value<B: Bindings>() -> bool {
    forall|c: B, i: usize| #[trigger] c.spec_value(i) is Some
}

/// A walk over nodes that refer only to expressions in the table succeeds against bindings
/// that write every value.
pub proof fn lemma_prefix_succeeds<B: Bindings>(ns: Seq<RNode>, k: nat, count: usize, b: B)
    requires
        all_within(ns, count as nat),
        writes_every_value::<B>(),
    ensures
        spec_walk_prefix(ns, k, count, b) is Ok,
    decreases ns, 1nat, k,
{
    if k > 0 && k <= ns.len() {
        lemma_all_within(ns, count as nat);
        lemma_prefix_succeeds(ns, (k - 1) as nat, count, b);
        assert(refs_within(ns[k - 1], count as nat));
        lemma_node_succeeds(ns[k - 1], count, b);
    }
}

/// One node that refers only to expressions in the table renders.
pub proof fn lemma_node_succeeds<B: Bindings>(n: RNode, count: usize, b: B)
    requires
        refs_within(n, count as nat),
        writes_every_value::<B>(),
    ensures
        spec_node(n, count, b) is Ok,
    decreases n, 0nat, 0nat,
{
    match n {
        RNode::Expr(i) => {
            assert(b.spec_value(i) is Some);
        },
        RNode::ExprAttr(i) => {
            assert(b.spec_value(i) is Some);
        },
        RNode::If { cond, then: yes, otherwise: no } => {
            reveal_with_fuel(refs_within, 2);
            assert(all_within(yes, count as nat));
            lemma_prefix_succeeds(yes, yes.len(), count, b);
            lemma_prefix_succeeds(no, no.len(), count, b);
        },
        RNode::For { seq, body } => {
            lemma_items_succeed(body, count, b, seq, b.spec_seq_len(seq) as nat);
        },
        RNode::Static(_) => {},
    }
}

/// A loop whose body refers only to expressions in the table renders every item.
pub proof fn lemma_items_succeed<B: Bindings>(body: Seq<RNode>, count: usize, b: B, seq: usize, k: nat)
    requires
        all_within(body, count as nat),
        writes_every_value::<B>(),
    ensures
        spec_items(body, count, b, seq, k) is Ok,
    decreases body, 2nat, k,
{
    if k > 0 {
        lemma_items_succeed(body, count, b, seq, (k - 1) as nat);
        match b.spec_seq_item(seq, (k - 1) as usize) {
            Some(c) => lemma_prefix_succeeds(body, body.len(), count, c),
            None => {},
        }
    }
}

/// Against bindings that write every value, a walk fails only on an unknown expression.
pub proof fn lemma_prefix_no_binding_fault<B: Bindings>(ns: Seq<RNode>, k: nat, count: usize, b: B)
    requires
        writes_every_value::<B>(),
    ensures
        spec_walk_prefix(ns, k, count, b) is Err ==> spec_walk_prefix(ns, k, count, b)->Err_0 is Unknown,
    decreases ns, 1nat, k,
{
    if k > 0 && k <= ns.len() {
        lemma_prefix_no_binding_fault(ns, (k - 1) as nat, count, b);
        lemma_node_no_binding_fault(ns[k - 1], count, b);
    }
}

/// Against bindings that write every value, a node fails only on an unknown expression.
pub proof fn lemma_node_no_binding_fault<B: Bindings>(n: RNode, count: usize, b: B)
    requires
        writes_every_value::<B>(),
    ensures
        spec_node(n, count, b) is Err ==> spec_node(n, count, b)->Err_0 is Unknown,
    decreases n, 0nat, 0nat,
{
    match n {
        RNode::Expr(i) => {
            assert(b.spec_value(i) is Some);
        },
        RNode::ExprAttr(i) => {
            assert(b.spec_value(i) is Some);
        },
        RNode::If { cond, then: yes, otherwise: no } => {
            lemma_prefix_no_binding_fault(yes, yes.len(), count, b);
            lemma_prefix_no_binding_fault(no, no.len(), count, b);
        },
        RNode::For { seq, body } => {
            lemma_items_no_binding_fault(body, count, b, seq, b.spec_seq_len(seq) as nat);
        },
        RNode::Static(_) => {},
    }
}

/// Against bindings that write every value, a loop fails only on an unknown expression.
pub proof fn lemma_items_no_binding_fault<B: Bindings>(body: Seq<RNode>, count: usize, b: B, seq: usize, k: nat)
    requires
        writes_every_value::<B>(),
    ensures
        spec_items(body, count, b, seq, k) is Err ==> spec_items(body, count, b, seq, k)->Err_0 is Unknown,
    decreases body, 2nat, k,
{
    if k > 0 {
        lemma_items_no_binding_fault(body, count, b, seq, (k - 1) as nat);
        match b.spec_seq_item(seq, (k - 1) as usize) {
            Some(c) => lemma_prefix_no_binding_fault(body, body.len(), count, c),
            None => {},
        }
    }
}

/// A descriptor whose nodes refer only to expressions in its own table renders against any
/// bindings that write every value: no unknown expression, no failed binding.
pub proof fn lemma_well_formed_renders<B: Bindings>(template: TemplateV, b: B)
    requires
        all_within(template.nodes, template.expressions.len()),
        template.expressions.len() <= usize::MAX,
        writes_every_value::<B>(),
    ensures
        spec_render(template, b) is Ok,
{
    lemma_prefix_succeeds(template.nodes, template.nodes.len(), template.expressions.len() as usize, b);
}

/// What a walk over `ns[..k]` writes: all its output when it succeeds, and when it stops at a
/// fault, the output of everything walked before the fault.
pub open spec fn partial_prefix<B: Bindings>(ns: Seq<RNode>, k: nat, count: usize, b: B) -> Seq<char>
    decreases ns, 1nat, k,
{
    match spec_walk_prefix(ns, k, count, b) {
        Ok((out, _)) => out,
        Err(_) => if k == 0 || k > ns.len() {
            Seq::empty()
        } else {
            match spec_walk_prefix(ns, (k - 1) as nat, count, b) {
                Err(_) => partial_prefix(ns, (k - 1) as nat, count, b),
                Ok((out, _)) => out + partial_node(ns[k - 1], count, b),
            }
        },
    }
}

/// What one node writes: its output, or what it wrote before its fault.
pub open spec fn partial_node<B: Bindings>(n: RNode, count: usize, b: B) -> Seq<char>
    decreases n, 0nat, 0nat,
{
    match spec_node(n, count, b) {
        Ok((out, _)) => out,
        Err(_) => match n {
            RNode::If { cond, then: yes, otherwise: no } => if cond >= count {
                Seq::empty()
            } else if b.spec_truthy(cond) {
                partial_prefix(yes, yes.len(), count, b)
            } else {
                partial_prefix(no, no.len(), count, b)
            },
            RNode::For { seq, body } => if seq >= count {
                Seq::empty()
            } else {
                partial_items(body, count, b, seq, b.spec_seq_len(seq) as nat)
            },
            _ => Seq::empty(),
        },
    }
}

/// What a loop writes for items `0..k`: its output, or what it wrote before its fault.
pub open spec fn partial_items<B: Bindings>(body: Seq<RNode>, count: usize, b: B, seq: usize, k: nat) -> Seq<char>
    decreases body, 2nat, k,
{
    match spec_items(body, count, b, seq, k) {
        Ok((out, _)) => out,
        Err(_) => if k == 0 {
            Seq::empty()
        } else {
            match spec_items(body, count, b, seq, (k - 1) as nat) {
                Err(_) => partial_items(body, count, b, seq, (k - 1) as nat),
                Ok((out, _)) => out + match b.spec_seq_item(seq, (k - 1) as usize) {
                    None => Seq::empty(),
                    Some(c) => partial_prefix(body, body.len(), count, c),
                },
            }
        },
    }
}

/// What rendering `template` against `b` writes: all of it on success, and on a fault the
/// output of every node walked before the faulty one.
pub open spec fn spec_written<B: Bindings>(template: TemplateV, b: B) -> Seq<char> {
    partial_prefix(template.nodes, template.nodes.len(), template.expressions.len() as usize, b)
}

/// Once a prefix of the nodes fails, every longer prefix writes what it wrote.
proof fn lemma_partial_prefix_err<B: Bindings>(ns: Seq<RNode>, k: nat, k2: nat, count: usize, b: B)
    requires
        spec_walk_prefix(ns, k, count, b) is Err,
        k <= k2 <= ns.len(),
    ensures
        partial_prefix(ns, k2, count, b) == partial_prefix(ns, k, count, b),
    decreases k2,
{
    if k2 > k {
        lemma_partial_prefix_err(ns, k, (k2 - 1) as nat, count, b);
        lemma_walk_prefix_err(ns, k, (k2 - 1) as nat, count, b);
        lemma_walk_prefix_err(ns, k, k2, count, b);
    }
}

/// Once the items up to `k` fail, every later count writes what they wrote.
proof fn lemma_partial_items_err<B: Bindings>(body: Seq<RNode>, count: usize, b: B, seq: usize, k: nat, k2: nat)
    requires
        spec_items(body, count, b, seq, k) is Err,
        k <= k2,
    ensures
        partial_items(body, count, b, seq, k2) == partial_items(body, count, b, seq, k),
    decreases k2,
{
    if k2 > k {
        lemma_partial_items_err(body, count, b, seq, k, (k2 - 1) as nat);
        lemma_items_err(body, count, b, seq, k, (k2 - 1) as nat);
        lemma_items_err(body, count, b, seq, k, k2);
    }
}

/// `seen` with every index in `reads` that it has room for set.
pub open spec fn marked(seen: Seq<bool>, reads: Set<usize>) -> Seq<bool> {
    Seq::new(seen.len(), |i: int| seen[i] || reads.contains(i as usize))
}

/// What a walk promises, given what its nodes should give: on success the output was appended
/// and the reads marked; unless the sink refused a write, it fails exactly when the nodes fail,
/// with their error, and after an unknown expression the sink holds what was walked before it.
pub open spec fn walk_post<S: Sink>(
    want: Result<(Seq<char>, Set<usize>), Fault>,
    partial: Seq<char>,
    r: Result<(), Error>,
    before: S,
    after: S,
    seen0: Seq<bool>,
    seen1: Seq<bool>,
) -> bool {
    &&& seen1.len() == seen0.len()
    &&& r is Ok ==> want is Ok
    &&& r is Ok ==> after.written() == before.written() + want->Ok_0.0
    &&& r is Ok ==> seen1 == marked(seen0, want->Ok_0.1)
    &&& after.refusals() >= before.refusals()
    &&& after.refusals() == before.refusals() ==> answers(r, want)
    &&& after.refusals() == before.refusals() && want is Err && want->Err_0 is Unknown
        ==> after.written() == before.written() + partial
}

/// Whether `r` is what a render returns for what its nodes give, when the sink refuses nothing:
/// success on success, and otherwise the error of the fault.
pub open spec fn answers(r: Result<(), Error>, want: Result<(Seq<char>, Set<usize>), Fault>) -> bool {
    match want {
        Ok(_) => r is Ok,
        Err(f) => r matches Err(e) && e == fault_error(f),
    }
}

/// The error a fault is reported as.
pub open spec fn fault_error(f: Fault) -> Error {
    match f {
        Fault::Unknown { index, available } => Error::UnknownExpression { index, available },
        Fault::Binding(e) => e,
    }
}

proof fn lemma_marked_empty(seen: Seq<bool>)
    ensures
        marked(seen, Set::empty()) == seen,
{
    assert(marked(seen, Set::empty()) =~= seen);
}

proof fn lemma_marked_union(seen: Seq<bool>, a: Set<usize>, b: Set<usize>)
    ensures
        marked(marked(seen, a), b) == marked(seen, a + b),
{
    assert(marked(marked(seen, a), b) =~= marked(seen, a + b));
}

/// Once a prefix of the nodes fails, every longer prefix fails the same way.
proof fn lemma_walk_prefix_err<B: Bindings>(ns: Seq<RNode>, k: nat, k2: nat, count: usize, b: B)
    requires
        spec_walk_prefix(ns, k, count, b) is Err,
        k <= k2 <= ns.len(),
    ensures
        spec_walk_prefix(ns, k2, count, b) == spec_walk_prefix(ns, k, count, b),
    decreases k2,
{
    if k2 > k {
        lemma_walk_prefix_err(ns, k, (k2 - 1) as nat, count, b);
    }
}

/// Once the items up to `k` fail, every later count fails the same way.
proof fn lemma_items_err<B: Bindings>(body: Seq<RNode>, count: usize, b: B, seq: usize, k: nat, k2: nat)
    requires
        spec_items(body, count, b, seq, k) is Err,
        k <= k2,
    ensures
        spec_items(body, count, b, seq, k2) == spec_items(body, count, b, seq, k),
    decreases k2,
{
    if k2 > k {
        lemma_items_err(body, count, b, seq, k, (k2 - 1) as nat);
    }
}

fn check(index: usize, available: usize) -> (r: Result<(), Error>)
    ensures
        r is Ok <==> index < available,
        r is Err ==> r == Err::<(), Error>(Error::UnknownExpression { index, available }),
{
    if index < available {
        Ok(())
    } else {
        Err(Error::UnknownExpression { index, available })
    }
}

/// `s` with its quotes escaped for an attribute value.
fn quote_escaped(s: &str) -> (r: String)
    ensures
        r@ == quote_escape(s@),
{
    let cs = crate::text::chars_of(s);
    let mut out = String::new();
    let mut i: usize = 0;
    while i < cs.len()
        invariant
            i <= cs@.len(),
            cs@ == s@,
            out@ == quote_escape(cs@.take(i as int)),
        decreases cs@.len() - i,
    {
        let c = cs[i];
        if c == '"' {
            out.append("&quot;");
        } else if c == '\'' {
            out.append("&#39;");
        } else {
            push_char(&mut out, c);
        }
        assert(cs@.take(i + 1).drop_last() =~= cs@.take(i as int));
        i += 1;
    }
    assert(cs@.take(cs@.len() as int) =~= cs@);
    out
}

/// Render one node.
fn walk_node<B: Bindings, S: Sink>(node: &Node, count: usize, b: &B, sink: &mut S, seen: &mut Recorder) -> (r: Result<(), Error>)
    ensures
        walk_post(
            spec_node(rview_node(*node), count, *b),
            partial_node(rview_node(*node), count, *b),
            r,
            *old(sink),
            *final(sink),
            old(seen)@,
            final(seen)@,
        ),
    decreases *node, 0nat,
{
    proof {
        lemma_marked_empty(seen@);
    }
    match node {
        Node::Static(text) => {
            let r = sink.raw(text.as_str());
            r
        },
        Node::Expr(index) => {
            match check(*index, count) {
                Err(e) => {
                    assert(sink.written() + Seq::<char>::empty() =~= sink.written());
                    return Err(e);
                },
                Ok(()) => {},
            }
            seen.mark(*index);
            b.value(*index, sink)
        },
        Node::ExprAttr(index) => {
            match check(*index, count) {
                Err(e) => {
                    assert(sink.written() + Seq::<char>::empty() =~= sink.written());
                    return Err(e);
                },
                Ok(()) => {},
            }
            seen.mark(*index);
            let mut buffer = StringSink::new();
            match b.value(*index, &mut buffer) {
                Err(e) => return Err(e),
                Ok(()) => {},
            }
            let quoted = quote_escaped(buffer.as_str());
            sink.raw(quoted.as_str())
        },
        Node::If { cond, then, otherwise } => {
            match check(*cond, count) {
                Err(e) => {
                    assert(sink.written() + Seq::<char>::empty() =~= sink.written());
                    return Err(e);
                },
                Ok(()) => {},
            }
            let ghost seen0 = seen@;
            seen.mark(*cond);
            let branch = if b.truthy(*cond) {
                then
            } else {
                otherwise
            };
            proof {
                assert(decreases_to!(*node => *branch));
            }
            let r = walk(branch, count, b, sink, seen);
            proof {
                lemma_rview_prefix(branch@, branch@.len());
                if r is Ok {
                    let reads = spec_walk(rview_nodes(branch@), count, *b)->Ok_0.1;
                    lemma_marked_union(seen0, set![*cond], reads);
                    assert(set![*cond] + reads =~= reads.insert(*cond));
                }
            }
            r
        },
        Node::For { seq, body } => {
            match check(*seq, count) {
                Err(e) => {
                    assert(sink.written() + Seq::<char>::empty() =~= sink.written());
                    return Err(e);
                },
                Ok(()) => {},
            }
            let ghost seen0 = seen@;
            let ghost w0 = sink.written();
            let ghost body_v = rview_nodes(body@);
            seen.mark(*seq);
            let ghost seen1 = seen@;
            let len = b.seq_len(*seq);
            let mut k: usize = 0;
            proof {
                lemma_marked_empty(seen1);
                assert(w0 + Seq::<char>::empty() =~= w0);
            }
            while k < len
                invariant
                    k <= len,
                    len == b.spec_seq_len(*seq),
                    body_v == rview_nodes(body@),
                    seen@.len() == seen1.len(),
                    spec_items(body_v, count, *b, *seq, k as nat) is Ok,
                    sink.written() == w0 + spec_items(body_v, count, *b, *seq, k as nat)->Ok_0.0,
                    seen@ == marked(seen1, spec_items(body_v, count, *b, *seq, k as nat)->Ok_0.1),
                    sink.refusals() >= old(sink).refusals(),
                    w0 == old(sink).written(),
                    seen1 == marked(seen0, set![*seq]),
                    seen0 == old(seen)@,
                    *node == (Node::For { seq: *seq, body: *body }),
                    *seq < count,
                decreases len - k,
            {
                let ghost before = sink.written();
                let ghost seen_before = seen@;
                let ghost acc = spec_items(body_v, count, *b, *seq, k as nat)->Ok_0;
                match b.seq_item(*seq, k) {
                    Some(scope) => {
                        proof {
                            assert(decreases_to!(*node => *body));
                        }
                        let r = walk(body, count, scope, sink, seen);
                        match r {
                            Err(e) => {
                                proof {
                                    if sink.refusals() == old(sink).refusals() {
                                        let w = spec_walk(body_v, count, *scope);
                                        assert(w is Err);
                                        assert(spec_items(body_v, count, *b, *seq, (k + 1) as nat) == w);
                                        lemma_items_err(body_v, count, *b, *seq, (k + 1) as nat, len as nat);
                                        lemma_partial_items_err(body_v, count, *b, *seq, (k + 1) as nat, len as nat);
                                        lemma_rview_prefix(body@, body@.len());
                                        assert(rview_node(*node) == RNode::For { seq: *seq, body: body_v });
                                        assert(spec_node(rview_node(*node), count, *b) == w);
                                        if w->Err_0 is Unknown {
                                            assert(sink.written() == before + partial_prefix(body_v, body_v.len(), count, *scope));
                                            assert(sink.written() =~= w0 + (acc.0 + partial_prefix(body_v, body_v.len(), count, *scope)));
                                        }
                                    }
                                }
                                return Err(e);
                            },
                            Ok(()) => {
                                proof {
                                    let step = spec_walk(body_v, count, *scope)->Ok_0;
                                    lemma_marked_union(seen1, acc.1, step.1);
                                    assert(sink.written() =~= w0 + (acc.0 + step.0));
                                }
                            },
                        }
                    },
                    None => {},
                }
                k += 1;
            }
            proof {
                let items = spec_items(body_v, count, *b, *seq, len as nat)->Ok_0;
                lemma_marked_union(seen0, set![*seq], items.1);
                assert(set![*seq] + items.1 =~= items.1.insert(*seq));
            }
            Ok(())
        },
    }
}

/// Render a sequence of nodes, in order.
pub(crate) fn walk<B: Bindings, S: Sink>(nodes: &Vec<Node>, count: usize, b: &B, sink: &mut S, seen: &mut Recorder) -> (r: Result<(), Error>)
    ensures
        walk_post(
            spec_walk(rview_nodes(nodes@), count, *b),
            partial_prefix(rview_nodes(nodes@), nodes@.len(), count, *b),
            r,
            *old(sink),
            *final(sink),
            old(seen)@,
            final(seen)@,
        ),
    decreases nodes@, 1nat,
{
    let ghost ns = rview_nodes(nodes@);
    let ghost w0 = sink.written();
    let ghost seen0 = seen@;
    proof {
        lemma_rview_prefix(nodes@, nodes@.len());
        lemma_marked_empty(seen0);
        assert(w0 + Seq::<char>::empty() =~= w0);
    }
    let mut i: usize = 0;
    while i < nodes.len()
        invariant
            i <= nodes@.len(),
            ns == rview_nodes(nodes@),
            ns.len() == nodes@.len(),
            forall|j: int| 0 <= j < nodes@.len() ==> #[trigger] ns[j] == rview_node(nodes@[j]),
            spec_walk_prefix(ns, i as nat, count, *b) is Ok,
            sink.written() == w0 + spec_walk_prefix(ns, i as nat, count, *b)->Ok_0.0,
            seen@ == marked(seen0, spec_walk_prefix(ns, i as nat, count, *b)->Ok_0.1),
            sink.refusals() >= old(sink).refusals(),
            w0 == old(sink).written(),
            seen0 == old(seen)@,
        decreases nodes@.len() - i,
    {
        let ghost acc = spec_walk_prefix(ns, i as nat, count, *b)->Ok_0;
        let ghost seen_before = seen@;
        proof {
            assert(decreases_to!(nodes@ => nodes@[i as int]));
        }
        let ghost before_node = sink.written();
        let r = walk_node(&nodes[i], count, b, sink, seen);
        match r {
            Err(e) => {
                proof {
                    if sink.refusals() == old(sink).refusals() {
                        lemma_walk_prefix_err(ns, (i + 1) as nat, ns.len(), count, *b);
                        lemma_partial_prefix_err(ns, (i + 1) as nat, ns.len(), count, *b);
                        let w = spec_node(ns[i as int], count, *b);
                        assert(w is Err);
                        assert(spec_walk_prefix(ns, (i + 1) as nat, count, *b) == w);
                        if w->Err_0 is Unknown {
                            assert(sink.written() == before_node + partial_node(ns[i as int], count, *b));
                            assert(sink.written() =~= w0 + (acc.0 + partial_node(ns[i as int], count, *b)));
                        }
                    }
                }
                return Err(e);
            },
            Ok(()) => {
                proof {
                    let step = spec_node(ns[i as int], count, *b)->Ok_0;
                    lemma_marked_union(seen0, acc.1, step.1);
                    assert(sink.written() =~= w0 + (acc.0 + step.0));
                }
            },
        }
        i += 1;
    }
    Ok(())
}

/// Render a descriptor against its bindings.
///
/// Returns [`Error::UnknownExpression`] if the descriptor references an expression the bindings
/// do not provide, and propagates failures of the bindings and of the sink. Unless the sink refuses
/// a write, the error is that of the first node that fails, and after an unknown expression the
/// sink holds everything written before it.
pub fn render<B: Bindings, S: Sink>(template: &Template, bindings: &B, sink: &mut S) -> (r: Result<(), Error>)
    ensures
        r is Ok ==> spec_render(template@, *bindings) is Ok,
        r is Ok ==> final(sink).written() == old(sink).written() + spec_render(template@, *bindings)->Ok_0,
        final(sink).refusals() >= old(sink).refusals(),
        final(sink).refusals() == old(sink).refusals() ==> match spec_render(template@, *bindings) {
            Ok(_) => r is Ok,
            Err(f) => r == Err::<(), Error>(fault_error(f)),
        },
        final(sink).refusals() == old(sink).refusals() && spec_render(template@, *bindings) is Err
            && spec_render(template@, *bindings)->Err_0 is Unknown ==> final(sink).written()
            == old(sink).written() + spec_written(template@, *bindings),
{
    let mut seen = Recorder::new(0);
    assert(template@.expressions.len() == template.expressions@.len());
    proof {
        lemma_rview_prefix(template.nodes@, template.nodes@.len());
    }
    walk(&template.nodes, template.expressions.len(), bindings, sink, &mut seen)
}

} // verus!
