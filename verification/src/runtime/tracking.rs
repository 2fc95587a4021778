//! Recording which expressions a render actually read.
//!
//! Recording happens in the walker, which sees every index at every depth, loop bodies included:
//! a page is keyed on the fields its render observed, and a read that went unrecorded would serve
//! a stale page.
use vstd::prelude::*;
use crate::runtime::error::Error;
use crate::runtime::sink::Sink;
use crate::runtime::template::{
    lemma_rview_prefix, marked, partial_prefix, rview_nodes, spec_written, spec_items, spec_node, spec_render, spec_walk, spec_walk_prefix, walk,
    walk_post, fault_error, Bindings, Fault, RNode, Template, TemplateV,
};

verus! {

/// Whether `s` is strictly increasing.
pub open spec fn strictly_increasing(s: Seq<usize>) -> bool {
    forall|i: int, j: int| 0 <= i < j < s.len() ==> s[i] < s[j]
}

/// Whether `s` is sorted, ties allowed.
pub open spec fn sorted(s: Seq<usize>) -> bool {
    forall|i: int, j: int| 0 <= i <= j < s.len() ==> s[i] <= s[j]
}

/// Whether `a` and `b` share an element.
pub open spec fn share(a: Seq<usize>, b: Seq<usize>) -> bool {
    exists|i: int, j: int| 0 <= i < a.len() && 0 <= j < b.len() && a[i] == b[j]
}

/// The set of expression indices a render read, ascending.
#[derive(Debug, PartialEq, Eq, Default)]
pub struct Observed(pub Vec<usize>);

impl Observed {
    /// The indices read, ascending.
    pub fn indices(&self) -> (r: &[usize])
        ensures
            r@ == self.0@,
    {
        self.0.as_slice()
    }

    /// Whether any of `changed` was read. Both sides must be sorted; each is walked once.
    ///
    /// A `true` always names a shared index; on sorted inputs `false` means there is none.
    pub fn intersects(&self, changed: &[usize]) -> (r: bool)
        ensures
            r ==> share(self.0@, changed@),
            sorted(self.0@) && sorted(changed@) ==> (r <==> share(self.0@, changed@)),
    {
        let mine = &self.0;
        let mut a: usize = 0;
        let mut b: usize = 0;
        while a < mine.len() && b < changed.len()
            invariant
                mine@ == self.0@,
                a <= mine@.len(),
                b <= changed@.len(),
                sorted(mine@) && sorted(changed@) ==> forall|i: int, j: int|
                    0 <= i < a && 0 <= j < changed@.len() ==> mine@[i] != changed@[j],
                sorted(mine@) && sorted(changed@) ==> forall|i: int, j: int|
                    0 <= i < mine@.len() && 0 <= j < b ==> mine@[i] != changed@[j],
            decreases mine@.len() - a + changed@.len() - b,
        {
            let x = mine[a];
            let y = changed[b];
            if x == y {
                assert(mine@[a as int] == changed@[b as int]);
                assert(self.0@[a as int] == changed@[b as int]);
                assert(share(self.0@, changed@));
                return true;
            } else if x < y {
                proof {
                    if sorted(mine@) && sorted(changed@) {
                        assert forall|j: int| 0 <= j < changed@.len() implies mine@[a as int] != changed@[j] by {
                            if j >= b {
                                assert(changed@[b as int] <= changed@[j]);
                            }
                        }
                    }
                }
                a += 1;
            } else {
                proof {
                    if sorted(mine@) && sorted(changed@) {
                        assert forall|i: int| 0 <= i < mine@.len() implies mine@[i] != changed@[b as int] by {
                            if i >= a {
                                assert(mine@[a as int] <= mine@[i]);
                            }
                        }
                    }
                }
                b += 1;
            }
        }
        proof {
            if sorted(mine@) && sorted(changed@) && share(mine@, changed@) {
                let (i, j) = choose|i: int, j: int| 0 <= i < mine@.len() && 0 <= j < changed@.len() && mine@[i] == changed@[j];
                assert(mine@[i] == changed@[j]);
            }
        }
        false
    }
}

/// Accumulates indices during a tracked render: one flag per expression of the table. A
/// recorder with no room for an index does not record it.
pub struct Recorder {
    seen: Vec<bool>,
}

impl View for Recorder {
    type V = Seq<bool>;

    closed spec fn view(&self) -> Seq<bool> {
        self.seen@
    }
}

impl Recorder {
    /// A recorder for a table of `expression_count` expressions, nothing recorded yet.
    pub(crate) fn new(expression_count: usize) -> (r: Recorder)
        ensures
            r@.len() == expression_count,
            forall|i: int| 0 <= i < expression_count ==> !#[trigger] r@[i],
    {
        let mut seen: Vec<bool> = Vec::new();
        let mut k: usize = 0;
        while k < expression_count
            invariant
                k <= expression_count,
                seen@ == Seq::new(k as nat, |i: int| false),
            decreases expression_count - k,
        {
            seen.push(false);
            k += 1;
            assert(seen@ =~= Seq::new(k as nat, |i: int| false));
        }
        Recorder { seen }
    }

    /// Record that `index` was read.
    pub(crate) fn mark(&mut self, index: usize)
        ensures
            final(self)@ == marked(old(self)@, set![index]),
    {
        if index < self.seen.len() {
            self.seen.set(index, true);
        }
        assert(self@ =~= marked(old(self)@, set![index]));
    }

    /// The recorded indices, ascending.
    pub(crate) fn finish(self) -> (r: Observed)
        ensures
            strictly_increasing(r.0@),
            forall|x: usize| r.0@.contains(x) <==> (x < self@.len() && self@[x as int]),
            forall|k: int| 0 <= k < r.0@.len() ==> #[trigger] r.0@[k] < self@.len() && self@[r.0@[k] as int],
    {
        let mut out: Vec<usize> = Vec::new();
        let mut i: usize = 0;
        while i < self.seen.len()
            invariant
                i <= self@.len(),
                self@ == self.seen@,
                strictly_increasing(out@),
                forall|k: int| 0 <= k < out@.len() ==> out@[k] < i,
                forall|k: int| 0 <= k < out@.len() ==> #[trigger] self@[out@[k] as int],
                forall|x: usize| out@.contains(x) <==> (x < i && self@[x as int]),
            decreases self@.len() - i,
        {
            let ghost before = out@;
            if self.seen[i] {
                out.push(i);
                proof {
                    assert(out@ == before.push(i));
                    assert forall|x: usize| out@.contains(x) <==> (x < i + 1 && self@[x as int]) by {
                        if x == i {
                            assert(out@[out@.len() - 1] == x);
                        } else if out@.contains(x) {
                            let k = choose|k: int| 0 <= k < out@.len() && out@[k] == x;
                            assert(k < before.len());
                            assert(before[k] == x);
                        } else if x < i && self@[x as int] {
                            let k = choose|k: int| 0 <= k < before.len() && before[k] == x;
                            assert(out@[k] == x);
                        }
                    }
                }
            } else {
                proof {
                    assert forall|x: usize| out@.contains(x) <==> (x < i + 1 && self@[x as int]) by {
                    }
                }
            }
            i += 1;
        }
        Observed(out)
    }
}

/// Every index a successful walk reads lies in the table.
pub proof fn lemma_prefix_reads<B: Bindings>(ns: Seq<RNode>, k: nat, count: usize, b: B)
    ensures
        spec_walk_prefix(ns, k, count, b) matches Ok((_, reads)) ==> forall|x: usize|
            reads.contains(x) ==> x < count,
    decreases ns, 1nat, k,
{
    if k > 0 && k <= ns.len() {
        lemma_prefix_reads(ns, (k - 1) as nat, count, b);
        lemma_node_reads(ns[k - 1], count, b);
    }
}

/// Every index a successful node reads lies in the table.
pub proof fn lemma_node_reads<B: Bindings>(n: RNode, count: usize, b: B)
    ensures
        spec_node(n, count, b) matches Ok((_, reads)) ==> forall|x: usize| reads.contains(x) ==> x < count,
    decreases n, 0nat, 0nat,
{
    match n {
        RNode::If { cond, then, otherwise } => {
            lemma_prefix_reads(then, then.len(), count, b);
            lemma_prefix_reads(otherwise, otherwise.len(), count, b);
        },
        RNode::For { seq, body } => {
            lemma_items_reads(body, count, b, seq, b.spec_seq_len(seq) as nat);
        },
        _ => {},
    }
}

/// Every index a successful loop reads lies in the table.
pub proof fn lemma_items_reads<B: Bindings>(body: Seq<RNode>, count: usize, b: B, seq: usize, k: nat)
    ensures
        spec_items(body, count, b, seq, k) matches Ok((_, reads)) ==> forall|x: usize|
            reads.contains(x) ==> x < count,
    decreases body, 2nat, k,
{
    if k > 0 {
        lemma_items_reads(body, count, b, seq, (k - 1) as nat);
        match b.spec_seq_item(seq, (k - 1) as usize) {
            Some(c) => lemma_prefix_reads(body, body.len(), count, c),
            None => {},
        }
    }
}

/// Render, and report which expressions were read, at every depth, loop bodies included.
///
/// Fails exactly as [`crate::runtime::template::render`] does.
pub fn render_tracked<B: Bindings, S: Sink>(template: &Template, bindings: &B, sink: &mut S) -> (r: Result<Observed, Error>)
    ensures
        ({
            let want = spec_walk(template@.nodes, template@.expressions.len() as usize, *bindings);
            &&& r is Ok ==> want is Ok
            &&& r matches Ok(obs) ==> {
                &&& final(sink).written() == old(sink).written() + want->Ok_0.0
                &&& strictly_increasing(obs.0@)
                &&& forall|x: usize| obs.0@.contains(x) <==> want->Ok_0.1.contains(x)
            }
            &&& final(sink).refusals() >= old(sink).refusals()
            &&& final(sink).refusals() == old(sink).refusals() ==> match want {
                Ok(_) => r is Ok,
                Err(f) => r matches Err(e) && e == fault_error(f),
            }
            &&& final(sink).refusals() == old(sink).refusals() && want is Err && want->Err_0 is Unknown
                ==> final(sink).written() == old(sink).written() + spec_written(template@, *bindings)
        }),
{
    let count = template.expressions.len();
    assert(template@.expressions.len() == count);
    let mut recorder = Recorder::new(count);
    proof {
        lemma_rview_prefix(template.nodes@, template.nodes@.len());
    }
    let ghost seen0 = recorder@;
    let ghost sink0 = *sink;
    let result = walk(&template.nodes, count, bindings, sink, &mut recorder);
    let ghost want = spec_walk(rview_nodes(template.nodes@), count, *bindings);
    assert(walk_post(
        want,
        partial_prefix(rview_nodes(template.nodes@), template.nodes@.len(), count, *bindings),
        result,
        sink0,
        *sink,
        seen0,
        recorder@,
    ));
    match result {
        Err(e) => Err(e),
        Ok(()) => {
            proof {
                lemma_prefix_reads(template@.nodes, template@.nodes.len(), count, *bindings);
            }
            let ghost reads = spec_walk(template@.nodes, count, *bindings)->Ok_0.1;
            let ghost seen1 = recorder@;
            let observed = recorder.finish();
            proof {
                assert(seen1 == marked(seen0, reads));
                assert forall|x: usize| observed.0@.contains(x) <==> reads.contains(x) by {
                    assert(seen1.len() == count);
                    if observed.0@.contains(x) {
                        let k = choose|k: int| 0 <= k < observed.0@.len() && observed.0@[k] == x;
                        assert(observed.0@[k] < seen1.len() && seen1[observed.0@[k] as int]);
                    }
                    if x < count {
                        assert(seen1[x as int] == (seen0[x as int] || reads.contains(x)));
                        assert(!seen0[x as int]);
                    }
                }
            }
            Ok(observed)
        },
    }
}

/// Whether `b1` and `b2` answer alike for expression `i`: the same value, truth, length and items.
pub open spec fn agree_on<B: Bindings>(b1: B, b2: B, i: usize) -> bool {
    &&& b1.spec_value(i) == b2.spec_value(i)
    &&& b1.spec_truthy(i) == b2.spec_truthy(i)
    &&& b1.spec_seq_len(i) == b2.spec_seq_len(i)
    &&& forall|k: usize| #[trigger] b1.spec_seq_item(i, k) == b2.spec_seq_item(i, k)
}

/// Whether `b1` and `b2` answer alike for every expression in `reads`.
pub open spec fn agree_on_all<B: Bindings>(b1: B, b2: B, reads: Set<usize>) -> bool {
    forall|i: usize| reads.contains(i) ==> #[trigger] agree_on(b1, b2, i)
}

/// A walk over nodes that succeeded against `b1` goes the same way against bindings that agree
/// with `b1` on everything it read.
proof fn lemma_prefix_reads_suffice<B: Bindings>(ns: Seq<RNode>, k: nat, count: usize, b1: B, b2: B)
    requires
        spec_walk_prefix(ns, k, count, b1) matches Ok((_, reads)) && agree_on_all(b1, b2, reads),
    ensures
        spec_walk_prefix(ns, k, count, b2) == spec_walk_prefix(ns, k, count, b1),
    decreases ns, 1nat, k,
{
    if k > 0 && k <= ns.len() {
        let reads = spec_walk_prefix(ns, k, count, b1)->Ok_0.1;
        let front = spec_walk_prefix(ns, (k - 1) as nat, count, b1)->Ok_0.1;
        let last = spec_node(ns[k - 1], count, b1)->Ok_0.1;
        assert(reads == front + last);
        assert(agree_on_all(b1, b2, front));
        assert(agree_on_all(b1, b2, last));
        lemma_prefix_reads_suffice(ns, (k - 1) as nat, count, b1, b2);
        lemma_node_reads_suffice(ns[k - 1], count, b1, b2);
    }
}

/// One node that rendered against `b1` renders the same against bindings that agree on what it
/// read.
proof fn lemma_node_reads_suffice<B: Bindings>(n: RNode, count: usize, b1: B, b2: B)
    requires
        spec_node(n, count, b1) matches Ok((_, reads)) && agree_on_all(b1, b2, reads),
    ensures
        spec_node(n, count, b2) == spec_node(n, count, b1),
    decreases n, 0nat, 0nat,
{
    let reads = spec_node(n, count, b1)->Ok_0.1;
    match n {
        RNode::Expr(i) => {
            assert(reads.contains(i));
            assert(agree_on(b1, b2, i));
        },
        RNode::ExprAttr(i) => {
            assert(reads.contains(i));
            assert(agree_on(b1, b2, i));
        },
        RNode::If { cond, then: yes, otherwise: no } => {
            assert(reads.contains(cond));
            assert(agree_on(b1, b2, cond));
            if b1.spec_truthy(cond) {
                let inner = spec_walk_prefix(yes, yes.len(), count, b1)->Ok_0.1;
                assert(reads == inner.insert(cond));
                assert(agree_on_all(b1, b2, inner));
                lemma_prefix_reads_suffice(yes, yes.len(), count, b1, b2);
            } else {
                let inner = spec_walk_prefix(no, no.len(), count, b1)->Ok_0.1;
                assert(reads == inner.insert(cond));
                assert(agree_on_all(b1, b2, inner));
                lemma_prefix_reads_suffice(no, no.len(), count, b1, b2);
            }
        },
        RNode::For { seq, body } => {
            assert(reads.contains(seq));
            assert(agree_on(b1, b2, seq));
            let len = b1.spec_seq_len(seq) as nat;
            let inner = spec_items(body, count, b1, seq, len)->Ok_0.1;
            assert(reads == inner.insert(seq));
            assert(agree_on_all(b1, b2, inner));
            lemma_items_reads_suffice(body, count, b1, b2, seq, len);
        },
        RNode::Static(_) => {},
    }
}

/// A loop that rendered against `b1` renders the same against bindings that hand out the same
/// items and agree on what the items' renders read.
proof fn lemma_items_reads_suffice<B: Bindings>(body: Seq<RNode>, count: usize, b1: B, b2: B, seq: usize, k: nat)
    requires
        spec_items(body, count, b1, seq, k) matches Ok((_, reads)) && agree_on_all(b1, b2, reads),
        agree_on(b1, b2, seq),
    ensures
        spec_items(body, count, b2, seq, k) == spec_items(body, count, b1, seq, k),
    decreases body, 2nat, k,
{
    if k > 0 {
        let reads = spec_items(body, count, b1, seq, k)->Ok_0.1;
        let front = spec_items(body, count, b1, seq, (k - 1) as nat)->Ok_0.1;
        assert(b1.spec_seq_item(seq, (k - 1) as usize) == b2.spec_seq_item(seq, (k - 1) as usize));
        match b1.spec_seq_item(seq, (k - 1) as usize) {
            None => {
                assert(reads == front);
            },
            Some(c) => {
                let inner = spec_walk_prefix(body, body.len(), count, c)->Ok_0.1;
                assert(reads == front + inner);
            },
        }
        assert(agree_on_all(b1, b2, front));
        lemma_items_reads_suffice(body, count, b1, b2, seq, (k - 1) as nat);
    }
}

/// What a render observed is all it depends on: bindings that answer alike for every expression
/// a successful render read, at any depth, render the same output.
///
/// This is what makes keying a page on its observed expressions sound: an edit to a field that
/// no observed expression reads cannot change the page.
pub proof fn lemma_render_depends_only_on_reads<B: Bindings>(template: TemplateV, b1: B, b2: B)
    requires
        spec_walk(template.nodes, template.expressions.len() as usize, b1) matches Ok((_, reads))
            && agree_on_all(b1, b2, reads),
    ensures
        spec_render(template, b2) == spec_render(template, b1),
{
    lemma_prefix_reads_suffice(
        template.nodes,
        template.nodes.len(),
        template.expressions.len() as usize,
        b1,
        b2,
    );
}

/// Tracking changes nothing about a render: a tracked render succeeds exactly when an untracked
/// one does, with the same output, and fails with the same fault.
pub proof fn lemma_tracking_changes_nothing<B: Bindings>(template: TemplateV, b: B)
    ensures
        spec_walk(template.nodes, template.expressions.len() as usize, b) matches Ok((out, _))
            ==> spec_render(template, b) == Ok::<Seq<char>, Fault>(out),
        spec_walk(template.nodes, template.expressions.len() as usize, b) matches Err(f)
            ==> spec_render(template, b) == Err::<Seq<char>, Fault>(f),
{
}

} // verus!
