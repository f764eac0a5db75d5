//! The decidability check: a grammar in which a rule can call itself without
//! consuming input is refused.

use vstd::prelude::*;

use crate::grammar::Rule;
use crate::grammar::RuleView;
use crate::grammar::rule_views;
use crate::grammar_dsl::NormalizedNode;
use crate::grammar_dsl::NormalizedView;
use crate::grammar_dsl::lemma_normalized_views;
use crate::grammar_dsl::normalized_views;
use crate::nullable::flags_of;
use crate::nullable::node_nullable;
use crate::nullable::nodes_of;

verus! {

impl NormalizedView {
    /// The rules that the expression can call before any input is consumed:
    /// none for a terminal, the rule itself for a reference, those of every
    /// branch for a choice, and for a sequence those of every part that has
    /// only nullable parts before it.
    pub open spec fn calls(self, flags: Seq<bool>) -> Set<int>
        decreases self,
    {
        match self {
            NormalizedView::Terminal(_) => Set::empty(),
            NormalizedView::Placeholder => Set::empty(),
            NormalizedView::Reference(index) => set![index],
            NormalizedView::Choice(nodes) => Set::new(
                |j: int|
                    exists|k: int|
                        0 <= k < nodes.len() && (#[trigger] nodes[k]).calls(flags).contains(j),
            ),
            NormalizedView::Sequence(nodes) => Set::new(
                |j: int|
                    exists|k: int|
                        0 <= k < nodes.len() && open_until(nodes, flags, k) && (
                        #[trigger] nodes[k]).calls(flags).contains(j),
            ),
        }
    }
}

/// Whether every part before the `k`-th accepts the empty text, so that the
/// `k`-th can begin where the sequence begins.
pub open spec fn open_until(nodes: Seq<NormalizedView>, flags: Seq<bool>, k: int) -> bool {
    forall|m: int| 0 <= m < k && m < nodes.len() ==> (#[trigger] nodes[m]).nullable_under(flags)
}

/// The call graph of a rule table: for each rule, the rules that it can call
/// before any input is consumed.
pub open spec fn call_graph(nodes: Seq<NormalizedView>, flags: Seq<bool>) -> Seq<Set<int>> {
    Seq::new(nodes.len(), |i: int| nodes[i].calls(flags))
}

/// Whether the graph has an edge from `from` to `to`.
pub open spec fn edge(graph: Seq<Set<int>>, from: int, to: int) -> bool {
    0 <= from < graph.len() && graph[from].contains(to)
}

/// Whether `path` follows edges of the graph from its first node to its last,
/// along one edge at least.
pub open spec fn is_path(graph: Seq<Set<int>>, path: Seq<int>) -> bool {
    &&& path.len() >= 2
    &&& forall|k: int| 0 <= k < path.len() - 1 ==> edge(graph, #[trigger] path[k], path[k + 1])
}

/// Whether `node` lies on a cycle of the graph.
pub open spec fn on_cycle(graph: Seq<Set<int>>, node: int) -> bool {
    exists|path: Seq<int>| #[trigger] is_path(graph, path) && path[0] == node && path.last() == node
}

/// Whether the graph has no cycle.
pub open spec fn acyclic(graph: Seq<Set<int>>) -> bool {
    forall|node: int| !on_cycle(graph, node)
}

/// The numbers that a sequence holds, as a set.
pub open spec fn held(items: Seq<usize>) -> Set<int> {
    Set::new(|j: int| exists|k: int| 0 <= k < items.len() && #[trigger] items[k] == j)
}

/// The graph whose edges the vectors of `adj` hold.
pub open spec fn graph_view(adj: Seq<Vec<usize>>) -> Seq<Set<int>> {
    Seq::new(adj.len(), |i: int| held(adj[i]@))
}

/// What a choice can call is what its branches can.
pub proof fn lemma_choice_calls(nodes: Seq<NormalizedView>, flags: Seq<bool>, j: int)
    ensures
        NormalizedView::Choice(nodes).calls(flags).contains(j) == (exists|k: int|
            0 <= k < nodes.len() && (#[trigger] nodes[k]).calls(flags).contains(j)),
{
    let node = NormalizedView::Choice(nodes);
    match node {
        NormalizedView::Choice(inner) => {
            assert(inner == nodes);
        },
        _ => {},
    }
}

/// What a sequence can call is what its parts can that have only nullable
/// parts before them.
pub proof fn lemma_sequence_calls(nodes: Seq<NormalizedView>, flags: Seq<bool>, j: int)
    ensures
        NormalizedView::Sequence(nodes).calls(flags).contains(j) == (exists|k: int|
            0 <= k < nodes.len() && open_until(nodes, flags, k) && (#[trigger] nodes[k]).calls(
                flags,
            ).contains(j)),
{
    let node = NormalizedView::Sequence(nodes);
    match node {
        NormalizedView::Sequence(inner) => {
            assert(inner == nodes);
        },
        _ => {},
    }
}

/// Adds to `out` the rules that `node` can call before any input is consumed,
/// under the nullability flags that `rules` carry.
pub fn collect_calls(node: &NormalizedNode, rules: &Vec<Rule>, out: &mut Vec<usize>)
    ensures
        held(final(out)@) == held(old(out)@).union(node@.calls(flags_of(rule_views(rules@)))),
    decreases node, 0nat,
{
    let ghost flags = flags_of(rule_views(rules@));
    let ghost before = held(out@);
    match node {
        NormalizedNode::Terminal(_) => {
            assert(held(out@) =~= before.union(node@.calls(flags)));
        },
        NormalizedNode::Placeholder => {
            assert(held(out@) =~= before.union(node@.calls(flags)));
        },
        NormalizedNode::Reference(index) => {
            let ghost earlier = out@;
            out.push(*index);
            proof {
                assert forall|j: int| held(out@).contains(j) <==> before.union(
                    node@.calls(flags),
                ).contains(j) by {
                    if held(earlier).contains(j) {
                        let k = choose|k: int| 0 <= k < earlier.len() && #[trigger] earlier[k] == j;
                        assert(out@[k] == j);
                    }
                    if j == *index {
                        assert(out@[earlier.len() as int] == j);
                    }
                }
                assert(held(out@) =~= before.union(node@.calls(flags)));
            }
        },
        NormalizedNode::Choice(nodes) => {
            collect_choice(nodes, rules, out);
        },
        NormalizedNode::Sequence(nodes) => {
            collect_sequence(nodes, rules, out);
        },
    }
}

/// What the first `i` branches of a choice can call.
pub open spec fn choice_calls_upto(nodes: Seq<NormalizedView>, flags: Seq<bool>, i: int) -> Set<int> {
    Set::new(
        |j: int|
            exists|k: int|
                0 <= k < i && k < nodes.len() && (#[trigger] nodes[k]).calls(flags).contains(j),
    )
}

/// What the first `i` parts of a sequence can call.
pub open spec fn sequence_calls_upto(nodes: Seq<NormalizedView>, flags: Seq<bool>, i: int) -> Set<
    int,
> {
    Set::new(
        |j: int|
            exists|k: int|
                0 <= k < i && k < nodes.len() && open_until(nodes, flags, k) && (
                #[trigger] nodes[k]).calls(flags).contains(j),
    )
}

/// One more branch adds what that branch can call.
proof fn lemma_choice_step(nodes: Seq<NormalizedView>, flags: Seq<bool>, i: int)
    requires
        0 <= i < nodes.len(),
    ensures
        choice_calls_upto(nodes, flags, i + 1) == choice_calls_upto(nodes, flags, i).union(
            nodes[i].calls(flags),
        ),
{
    let left = choice_calls_upto(nodes, flags, i + 1);
    let right = choice_calls_upto(nodes, flags, i).union(nodes[i].calls(flags));
    assert forall|j: int| left.contains(j) <==> right.contains(j) by {
        if left.contains(j) {
            let k = choose|k: int|
                0 <= k < i + 1 && k < nodes.len() && (#[trigger] nodes[k]).calls(flags).contains(j);
            if k < i {
                assert(choice_calls_upto(nodes, flags, i).contains(j));
            }
        }
        if choice_calls_upto(nodes, flags, i).contains(j) {
            let k = choose|k: int|
                0 <= k < i && k < nodes.len() && (#[trigger] nodes[k]).calls(flags).contains(j);
            assert(0 <= k < i + 1 && k < nodes.len() && nodes[k].calls(flags).contains(j));
        }
        if nodes[i].calls(flags).contains(j) {
            assert(0 <= i < i + 1 && i < nodes.len() && nodes[i].calls(flags).contains(j));
        }
    }
    assert(left =~= right);
}

/// All the branches give what the choice can call.
proof fn lemma_choice_full(nodes: Seq<NormalizedView>, flags: Seq<bool>)
    ensures
        NormalizedView::Choice(nodes).calls(flags) == choice_calls_upto(
            nodes,
            flags,
            nodes.len() as int,
        ),
{
    let left = NormalizedView::Choice(nodes).calls(flags);
    let right = choice_calls_upto(nodes, flags, nodes.len() as int);
    assert forall|j: int| left.contains(j) <==> right.contains(j) by {
        lemma_choice_calls(nodes, flags, j);
        if left.contains(j) {
            let k = choose|k: int|
                0 <= k < nodes.len() && (#[trigger] nodes[k]).calls(flags).contains(j);
            assert(0 <= k < nodes.len() && k < nodes.len() && nodes[k].calls(flags).contains(j));
        }
        if right.contains(j) {
            let k = choose|k: int|
                0 <= k < nodes.len() && k < nodes.len() && (#[trigger] nodes[k]).calls(
                    flags,
                ).contains(j);
            assert(0 <= k < nodes.len() && nodes[k].calls(flags).contains(j));
        }
    }
    assert(left =~= right);
}

/// One more part, where every part before it is nullable, adds what that
/// part can call.
proof fn lemma_sequence_step(nodes: Seq<NormalizedView>, flags: Seq<bool>, i: int)
    requires
        0 <= i < nodes.len(),
        open_until(nodes, flags, i),
    ensures
        sequence_calls_upto(nodes, flags, i + 1) == sequence_calls_upto(nodes, flags, i).union(
            nodes[i].calls(flags),
        ),
{
    let left = sequence_calls_upto(nodes, flags, i + 1);
    let right = sequence_calls_upto(nodes, flags, i).union(nodes[i].calls(flags));
    assert forall|j: int| left.contains(j) <==> right.contains(j) by {
        if left.contains(j) {
            let k = choose|k: int|
                0 <= k < i + 1 && k < nodes.len() && open_until(nodes, flags, k) && (
                #[trigger] nodes[k]).calls(flags).contains(j);
            if k < i {
                assert(sequence_calls_upto(nodes, flags, i).contains(j));
            }
        }
        if sequence_calls_upto(nodes, flags, i).contains(j) {
            let k = choose|k: int|
                0 <= k < i && k < nodes.len() && open_until(nodes, flags, k) && (
                #[trigger] nodes[k]).calls(flags).contains(j);
            assert(0 <= k < i + 1 && k < nodes.len() && open_until(nodes, flags, k)
                && nodes[k].calls(flags).contains(j));
        }
        if nodes[i].calls(flags).contains(j) {
            assert(0 <= i < i + 1 && i < nodes.len() && open_until(nodes, flags, i)
                && nodes[i].calls(flags).contains(j));
        }
    }
    assert(left =~= right);
}

/// Behind a part that is not nullable nothing more can be called.
proof fn lemma_sequence_stop(nodes: Seq<NormalizedView>, flags: Seq<bool>, i: int, past: int)
    requires
        0 < i <= past,
        i <= nodes.len(),
        !nodes[i - 1].nullable_under(flags),
    ensures
        sequence_calls_upto(nodes, flags, past) == sequence_calls_upto(nodes, flags, i),
{
    let left = sequence_calls_upto(nodes, flags, past);
    let right = sequence_calls_upto(nodes, flags, i);
    assert forall|j: int| left.contains(j) <==> right.contains(j) by {
        if left.contains(j) {
            let k = choose|k: int|
                0 <= k < past && k < nodes.len() && open_until(nodes, flags, k) && (
                #[trigger] nodes[k]).calls(flags).contains(j);
            if k >= i {
                assert(nodes[i - 1].nullable_under(flags));
            }
        }
        if right.contains(j) {
            let k = choose|k: int|
                0 <= k < i && k < nodes.len() && open_until(nodes, flags, k) && (
                #[trigger] nodes[k]).calls(flags).contains(j);
            assert(0 <= k < past && k < nodes.len() && open_until(nodes, flags, k)
                && nodes[k].calls(flags).contains(j));
        }
    }
    assert(left =~= right);
}

/// All the parts give what the sequence can call.
proof fn lemma_sequence_full(nodes: Seq<NormalizedView>, flags: Seq<bool>)
    ensures
        NormalizedView::Sequence(nodes).calls(flags) == sequence_calls_upto(
            nodes,
            flags,
            nodes.len() as int,
        ),
{
    let left = NormalizedView::Sequence(nodes).calls(flags);
    let right = sequence_calls_upto(nodes, flags, nodes.len() as int);
    assert forall|j: int| left.contains(j) <==> right.contains(j) by {
        lemma_sequence_calls(nodes, flags, j);
        if left.contains(j) {
            let k = choose|k: int|
                0 <= k < nodes.len() && open_until(nodes, flags, k) && (#[trigger] nodes[k]).calls(
                    flags,
                ).contains(j);
            assert(0 <= k < nodes.len() && k < nodes.len() && open_until(nodes, flags, k)
                && nodes[k].calls(flags).contains(j));
        }
        if right.contains(j) {
            let k = choose|k: int|
                0 <= k < nodes.len() && k < nodes.len() && open_until(nodes, flags, k) && (
                #[trigger] nodes[k]).calls(flags).contains(j);
            assert(0 <= k < nodes.len() && open_until(nodes, flags, k) && nodes[k].calls(
                flags,
            ).contains(j));
        }
    }
    assert(left =~= right);
}

/// Adds to `out` what the branches of a choice can call.
fn collect_choice(nodes: &Vec<NormalizedNode>, rules: &Vec<Rule>, out: &mut Vec<usize>)
    ensures
        held(final(out)@) == held(old(out)@).union(
            NormalizedView::Choice(normalized_views(nodes@)).calls(flags_of(rule_views(rules@))),
        ),
    decreases nodes, 1nat,
{
    let ghost flags = flags_of(rule_views(rules@));
    let ghost views = normalized_views(nodes@);
    let ghost before = held(out@);
    proof {
        lemma_normalized_views(nodes@);
        assert(before =~= before.union(choice_calls_upto(views, flags, 0)));
    }
    let mut i: usize = 0;
    while i < nodes.len()
        invariant
            i <= nodes.len(),
            flags == flags_of(rule_views(rules@)),
            views == normalized_views(nodes@),
            views.len() == nodes@.len(),
            forall|k: int| 0 <= k < nodes@.len() ==> (#[trigger] views[k]) == nodes@[k]@,
            held(out@) == before.union(choice_calls_upto(views, flags, i as int)),
        decreases nodes.len() - i,
    {
        collect_calls(&nodes[i], rules, out);
        proof {
            lemma_choice_step(views, flags, i as int);
            assert(held(out@) =~= before.union(choice_calls_upto(views, flags, i + 1)));
        }
        i = i + 1;
    }
    proof {
        lemma_choice_full(views, flags);
    }
}

/// Adds to `out` what the parts of a sequence can call: those of each part in
/// turn, up to and with the first part that is not nullable.
fn collect_sequence(nodes: &Vec<NormalizedNode>, rules: &Vec<Rule>, out: &mut Vec<usize>)
    ensures
        held(final(out)@) == held(old(out)@).union(
            NormalizedView::Sequence(normalized_views(nodes@)).calls(flags_of(rule_views(rules@))),
        ),
    decreases nodes, 1nat,
{
    let ghost flags = flags_of(rule_views(rules@));
    let ghost views = normalized_views(nodes@);
    let ghost before = held(out@);
    proof {
        lemma_normalized_views(nodes@);
        assert(before =~= before.union(sequence_calls_upto(views, flags, 0)));
    }
    let mut i: usize = 0;
    let mut going = true;
    while going && i < nodes.len()
        invariant
            i <= nodes.len(),
            flags == flags_of(rule_views(rules@)),
            views == normalized_views(nodes@),
            views.len() == nodes@.len(),
            forall|k: int| 0 <= k < nodes@.len() ==> (#[trigger] views[k]) == nodes@[k]@,
            going ==> open_until(views, flags, i as int),
            !going ==> 0 < i && !views[i - 1].nullable_under(flags),
            held(out@) == before.union(sequence_calls_upto(views, flags, i as int)),
        decreases nodes.len() - i + if going { 1nat } else { 0nat },
    {
        collect_calls(&nodes[i], rules, out);
        let open = node_nullable(&nodes[i], rules);
        proof {
            lemma_sequence_step(views, flags, i as int);
            assert(held(out@) =~= before.union(sequence_calls_upto(views, flags, i + 1)));
        }
        if !open {
            going = false;
        }
        i = i + 1;
    }
    proof {
        lemma_sequence_full(views, flags);
        if !going {
            lemma_sequence_stop(views, flags, i as int, views.len() as int);
        }
    }
}

/// How many of `marks` are below `bound`.
pub open spec fn count_below(marks: Seq<u128>, bound: u128) -> nat
    decreases marks.len(),
{
    if marks.len() == 0 {
        0
    } else {
        count_below(marks.drop_last(), bound) + if marks.last() < bound {
            1nat
        } else {
            0nat
        }
    }
}

/// What replacing one mark does to the count.
proof fn lemma_count_update(marks: Seq<u128>, bound: u128, i: int, value: u128)
    requires
        0 <= i < marks.len(),
    ensures
        count_below(marks.update(i, value), bound) + (if marks[i] < bound {
            1nat
        } else {
            0nat
        }) == count_below(marks, bound) + (if value < bound {
            1nat
        } else {
            0nat
        }),
        count_below(marks, bound) <= marks.len(),
    decreases marks.len(),
{
    let after = marks.update(i, value);
    if i == marks.len() - 1 {
        assert(after.drop_last() =~= marks.drop_last());
        lemma_count_bound(marks.drop_last(), bound);
    } else {
        assert(after.drop_last() =~= marks.drop_last().update(i, value));
        lemma_count_update(marks.drop_last(), bound, i, value);
    }
}

/// No more marks are below a bound than there are marks.
proof fn lemma_count_bound(marks: Seq<u128>, bound: u128)
    ensures
        count_below(marks, bound) <= marks.len(),
    decreases marks.len(),
{
    if marks.len() > 0 {
        lemma_count_bound(marks.drop_last(), bound);
    }
}

/// A mark of zero is for a node not met yet, of one for a node whose calls
/// are being followed, and a larger one for a node that is done: the larger,
/// the later it was done.
pub open spec fn done(mark: u128) -> bool {
    mark >= 2
}

/// What holds of the marks between two steps of the search: every node that
/// is done was done before `next`, and calls only nodes that were done before
/// it.
#[verifier::opaque]
pub open spec fn search_inv(graph: Seq<Set<int>>, marks: Seq<u128>, next: u128) -> bool {
    &&& marks.len() == graph.len()
    &&& next >= 2
    &&& next + count_below(marks, 2) == graph.len() + 2
    &&& forall|b: int| 0 <= b < marks.len() ==> (#[trigger] marks[b]) < next
    &&& forall|b: int, w: int|
        #![trigger graph[b].contains(w)]
        0 <= b < graph.len() && done(marks[b]) && graph[b].contains(w) && 0 <= w < graph.len()
            ==> done(marks[w]) && marks[w] < marks[b]
}

/// Whether the nodes marked as being followed are those of `stack`, each
/// calling the next.
#[verifier::opaque]
pub open spec fn stack_inv(graph: Seq<Set<int>>, marks: Seq<u128>, stack: Seq<int>) -> bool {
    &&& forall|k: int| 0 <= k < stack.len() ==> 0 <= (#[trigger] stack[k]) < graph.len()
    &&& forall|x: int| 0 <= x < marks.len() ==> ((#[trigger] marks[x]) == 1 <==> stack.contains(x))
    &&& forall|k: int| 0 <= k < stack.len() - 1 ==> edge(graph, #[trigger] stack[k], stack[k + 1])
}

/// Along a path of nodes that are all done, the marks fall.
proof fn lemma_path_falls(graph: Seq<Set<int>>, marks: Seq<u128>, next: u128, path: Seq<int>, k: int)
    requires
        search_inv(graph, marks, next),
        forall|x: int| 0 <= x < marks.len() ==> done(#[trigger] marks[x]),
        is_path(graph, path),
        0 <= path.last() < graph.len(),
        1 <= k < path.len(),
    ensures
        0 <= path[k] < graph.len(),
        0 <= path[0] < graph.len(),
        marks[path[k]] < marks[path[0]],
    decreases k,
{
    reveal(search_inv);
    assert(edge(graph, path[0], path[1]));
    assert(edge(graph, path[k - 1], path[k]));
    if k < path.len() - 1 {
        assert(edge(graph, path[k], path[k + 1]));
    }
    if k > 1 {
        lemma_path_falls(graph, marks, next, path, k - 1);
    }
    assert(graph[path[k - 1]].contains(path[k]));
}

/// Where every node is done, the graph has no cycle.
proof fn lemma_all_done_acyclic(graph: Seq<Set<int>>, marks: Seq<u128>, next: u128)
    requires
        search_inv(graph, marks, next),
        forall|x: int| 0 <= x < marks.len() ==> done(#[trigger] marks[x]),
    ensures
        acyclic(graph),
{
    assert forall|node: int| !on_cycle(graph, node) by {
        if on_cycle(graph, node) {
            let path = choose|path: Seq<int>| #[trigger]
                is_path(graph, path) && path[0] == node && path.last() == node;
            assert(edge(graph, path[0], path[1]));
            lemma_path_falls(graph, marks, next, path, path.len() - 1);
        }
    }
}

/// Before the search, with no node met, the marks are in order.
proof fn lemma_search_begins(graph: Seq<Set<int>>, marks: Seq<u128>)
    requires
        marks.len() == graph.len(),
        count_below(marks, 2) == marks.len(),
        forall|x: int| 0 <= x < marks.len() ==> (#[trigger] marks[x]) == 0,
    ensures
        search_inv(graph, marks, 2),
        stack_inv(graph, marks, Seq::<int>::empty()),
{
    reveal(search_inv);
    reveal(stack_inv);
}

/// While no node is being followed, no node is marked so.
proof fn lemma_none_followed(graph: Seq<Set<int>>, marks: Seq<u128>, x: int)
    requires
        stack_inv(graph, marks, Seq::<int>::empty()),
        0 <= x < marks.len(),
    ensures
        marks[x] != 1,
{
    reveal(stack_inv);
    if marks[x] == 1 {
        assert(Seq::<int>::empty().contains(x));
    }
}

/// The nodes of the graph are as many as the marks, and the next mark is
/// a number that the machine holds.
proof fn lemma_search_sizes(graph: Seq<Set<int>>, marks: Seq<u128>, next: u128)
    requires
        search_inv(graph, marks, next),
    ensures
        marks.len() == graph.len(),
        2 <= next <= graph.len() + 2,
{
    reveal(search_inv);
}

/// Marking a node that was not met as being followed keeps the marks in
/// order, with the node on top of the stack, and leaves one node fewer
/// unmet.
proof fn lemma_follow(
    graph: Seq<Set<int>>,
    marks: Seq<u128>,
    next: u128,
    stack: Seq<int>,
    u: int,
)
    requires
        search_inv(graph, marks, next),
        stack_inv(graph, marks, stack),
        0 <= u < graph.len(),
        marks[u] == 0,
        stack.len() > 0 ==> edge(graph, stack.last(), u),
    ensures
        search_inv(graph, marks.update(u, 1), next),
        stack_inv(graph, marks.update(u, 1), stack.push(u)),
        !stack.contains(u),
        count_below(marks.update(u, 1), 1) < count_below(marks, 1),
{
    reveal(search_inv);
    reveal(stack_inv);
    let after = marks.update(u, 1);
    let inner = stack.push(u);
    lemma_count_update(marks, 1, u, 1);
    lemma_count_update(marks, 2, u, 1);
    assert forall|x: int| 0 <= x < after.len() implies ((#[trigger] after[x]) == 1 <==> inner.contains(
        x,
    )) by {
        if x == u {
            assert(inner[stack.len() as int] == x);
        } else {
            if stack.contains(x) {
                let k = choose|k: int| 0 <= k < stack.len() && stack[k] == x;
                assert(inner[k] == x);
            }
            if inner.contains(x) {
                let k = choose|k: int| 0 <= k < inner.len() && inner[k] == x;
                assert(stack[k] == x);
            }
        }
    }
    assert forall|k: int| 0 <= k < inner.len() - 1 implies edge(
        graph,
        #[trigger] inner[k],
        inner[k + 1],
    ) by {
        if k < stack.len() - 1 {
            assert(edge(graph, stack[k], stack[k + 1]));
        }
    }
    assert forall|k: int| 0 <= k < inner.len() implies 0 <= (#[trigger] inner[k]) < graph.len() by {
        if k < stack.len() {
            assert(inner[k] == stack[k]);
        }
    }
    assert forall|b: int, w: int|
        #![trigger graph[b].contains(w)]
        0 <= b < graph.len() && done(after[b]) && graph[b].contains(w) && 0 <= w
            < graph.len() implies done(after[w]) && after[w] < after[b] by {
        assert(done(marks[b]));
    }
}

/// The node on top of the stack is marked as being followed, and a node
/// marked so that the top calls lies on a cycle.
proof fn lemma_followed(graph: Seq<Set<int>>, marks: Seq<u128>, stack: Seq<int>, u: int, v: int)
    requires
        stack_inv(graph, marks, stack.push(u)),
        0 <= u < marks.len(),
        0 <= v < marks.len(),
    ensures
        marks[u] == 1,
        marks[v] == 1 && edge(graph, u, v) ==> on_cycle(graph, v),
{
    reveal(stack_inv);
    let inner = stack.push(u);
    assert(inner[stack.len() as int] == u);
    assert(inner.contains(u));
    if marks[v] == 1 && edge(graph, u, v) {
        let k = choose|k: int| 0 <= k < inner.len() && inner[k] == v;
        let path = inner.subrange(k, inner.len() as int).push(v);
        assert forall|i: int| 0 <= i < path.len() - 1 implies edge(
            graph,
            #[trigger] path[i],
            path[i + 1],
        ) by {
            if i < path.len() - 2 {
                assert(edge(graph, inner[k + i], inner[k + i + 1]));
            } else {
                assert(path[i] == u);
                assert(path[i + 1] == v);
            }
        }
        assert(is_path(graph, path) && path[0] == v && path.last() == v);
    }
}

/// Marking the node on top of the stack as done, once all that it calls is
/// done, keeps the marks in order and takes the node off the stack.
proof fn lemma_finish(
    graph: Seq<Set<int>>,
    marks: Seq<u128>,
    next: u128,
    stack: Seq<int>,
    u: int,
)
    requires
        search_inv(graph, marks, next),
        stack_inv(graph, marks, stack.push(u)),
        0 <= u < graph.len(),
        graph.len() <= usize::MAX,
        marks.len() == graph.len(),
        !stack.contains(u),
        forall|w: int|
            #![trigger graph[u].contains(w)]
            graph[u].contains(w) && 0 <= w < graph.len() ==> done(marks[w]),
    ensures
        next + 1 <= graph.len() + 2,
        search_inv(graph, marks.update(u, next), (next + 1) as u128),
        stack_inv(graph, marks.update(u, next), stack),
{
    reveal(search_inv);
    reveal(stack_inv);
    let inner = stack.push(u);
    let after = marks.update(u, next);
    assert(inner[stack.len() as int] == u);
    assert(inner.contains(u));
    assert(marks[u] == 1);
    lemma_count_update(marks, 2, u, next);
    lemma_count_bound(after, 2);
    assert forall|b: int, w: int|
        #![trigger graph[b].contains(w)]
        0 <= b < graph.len() && done(after[b]) && graph[b].contains(w) && 0 <= w
            < graph.len() implies done(after[w]) && after[w] < after[b] by {
        if b == u {
            assert(done(marks[w]));
            assert(marks[w] < next);
        } else {
            assert(done(marks[b]));
            assert(done(marks[w]) && marks[w] < marks[b]);
        }
    }
    assert forall|x: int| 0 <= x < after.len() implies ((#[trigger] after[x]) == 1 <==> stack.contains(
        x,
    )) by {
        if x != u {
            assert(marks[x] == 1 <==> inner.contains(x));
            if inner.contains(x) {
                let k = choose|k: int| 0 <= k < inner.len() && inner[k] == x;
                assert(stack[k] == x);
            }
            if stack.contains(x) {
                let k = choose|k: int| 0 <= k < stack.len() && stack[k] == x;
                assert(inner[k] == x);
            }
        }
    }
    assert forall|k: int| 0 <= k < stack.len() implies 0 <= (#[trigger] stack[k]) < graph.len() by {
        assert(inner[k] == stack[k]);
    }
    assert forall|k: int| 0 <= k < stack.len() - 1 implies edge(
        graph,
        #[trigger] stack[k],
        stack[k + 1],
    ) by {
        assert(edge(graph, inner[k], inner[k + 1]));
    }
}

/// Where the vector of a node holds every node that it calls, and each of
/// them that is a node of the graph is done, all that the node calls is done.
proof fn lemma_calls_done(adj: Seq<Vec<usize>>, marks: Seq<u128>, u: int)
    requires
        0 <= u < adj.len(),
        marks.len() == adj.len(),
        forall|s: int|
            0 <= s < adj[u]@.len() && (#[trigger] adj[u]@[s]) < adj.len() ==> done(
                marks[adj[u]@[s] as int],
            ),
    ensures
        forall|w: int|
            #![trigger graph_view(adj)[u].contains(w)]
            graph_view(adj)[u].contains(w) && 0 <= w < adj.len() ==> done(marks[w]),
{
    assert forall|w: int|
        #![trigger graph_view(adj)[u].contains(w)]
        graph_view(adj)[u].contains(w) && 0 <= w < adj.len() implies done(marks[w]) by {
        let s = choose|s: int| 0 <= s < adj[u]@.len() && #[trigger] adj[u]@[s] == w;
        assert(done(marks[adj[u]@[s] as int]));
    }
}

/// Follows the calls of `u`, which has not been met before. Returns a node
/// on a cycle where it meets one, and otherwise leaves `u` and all that it
/// reached done.
fn visit(
    adj: &Vec<Vec<usize>>,
    marks: &mut Vec<u128>,
    next: &mut u128,
    u: usize,
    Ghost(stack): Ghost<Seq<int>>,
) -> (found: Option<usize>)
    requires
        u < adj@.len(),
        search_inv(graph_view(adj@), old(marks)@, *old(next)),
        stack_inv(graph_view(adj@), old(marks)@, stack),
        old(marks)@[u as int] == 0,
        stack.len() > 0 ==> edge(graph_view(adj@), stack.last(), u as int),
    ensures
        match found {
            Some(c) => c < adj@.len() && on_cycle(graph_view(adj@), c as int),
            None => {
                &&& search_inv(graph_view(adj@), final(marks)@, *final(next))
                &&& stack_inv(graph_view(adj@), final(marks)@, stack)
                &&& final(marks)@.len() == old(marks)@.len()
                &&& done(final(marks)@[u as int])
                &&& forall|x: int|
                    0 <= x < old(marks)@.len() && done(#[trigger] old(marks)@[x]) ==> final(marks)@[x]
                        == old(marks)@[x]
                &&& forall|x: int|
                    0 <= x < old(marks)@.len() && (#[trigger] final(marks)@[x]) == 0 ==> old(marks)@[x]
                        == 0
            },
        },
    decreases count_below(old(marks)@, 1),
{
    let ghost graph = graph_view(adj@);
    let ghost entry = marks@;
    let n = adj.len();
    proof {
        lemma_search_sizes(graph, entry, *next);
        lemma_follow(graph, entry, *next, stack, u as int);
    }
    marks.set(u, 1);
    let ghost inner = stack.push(u as int);
    let mut t: usize = 0;
    while t < adj[u].len()
        invariant
            n == adj@.len(),
            u < n,
            graph == graph_view(adj@),
            t <= adj@[u as int]@.len(),
            search_inv(graph, marks@, *next),
            stack_inv(graph, marks@, inner),
            inner == stack.push(u as int),
            entry == old(marks)@,
            entry.len() == n,
            entry[u as int] == 0,
            !stack.contains(u as int),
            marks@.len() == n,
            count_below(marks@, 1) < count_below(entry, 1),
            forall|s: int|
                0 <= s < t && (#[trigger] adj@[u as int]@[s]) < n ==> done(
                    marks@[adj@[u as int]@[s] as int],
                ),
            forall|x: int| 0 <= x < n && done(#[trigger] entry[x]) ==> marks@[x] == entry[x],
            forall|x: int| 0 <= x < n && (#[trigger] marks@[x]) == 0 ==> entry[x] == 0,
        decreases adj@[u as int]@.len() - t,
    {
        let v = adj[u][t];
        if v < n {
            let mark = marks[v];
            proof {
                assert(held(adj@[u as int]@).contains(v as int));
                assert(edge(graph, u as int, v as int));
                lemma_followed(graph, marks@, stack, u as int, v as int);
            }
            if mark == 1 {
                return Some(v);
            } else if mark == 0 {
                let ghost here = marks@;
                match visit(adj, marks, next, v, Ghost(inner)) {
                    Some(c) => {
                        return Some(c);
                    },
                    None => {
                        proof {
                            assert forall|s: int|
                                0 <= s < t + 1 && (#[trigger] adj@[u as int]@[s]) < n implies done(
                                marks@[adj@[u as int]@[s] as int],
                            ) by {
                                if s < t {
                                    assert(done(here[adj@[u as int]@[s] as int]));
                                }
                            }
                            lemma_count_monotone(here, marks@);
                        }
                    },
                }
            }
        }
        t = t + 1;
    }
    proof {
        lemma_calls_done(adj@, marks@, u as int);
        lemma_search_sizes(graph, marks@, *next);
        lemma_finish(graph, marks@, *next, stack, u as int);
    }
    let stamp = *next;
    marks.set(u, stamp);
    *next = stamp + 1;
    None
}

/// Where marks only ever leave zero, no more of them are zero afterwards.
proof fn lemma_count_monotone(before: Seq<u128>, after: Seq<u128>)
    requires
        before.len() == after.len(),
        forall|x: int| 0 <= x < before.len() && (#[trigger] after[x]) == 0 ==> before[x] == 0,
    ensures
        count_below(after, 1) <= count_below(before, 1),
    decreases before.len(),
{
    if before.len() > 0 {
        assert forall|x: int| 0 <= x < before.drop_last().len() && (
        #[trigger] after.drop_last()[x]) == 0 implies before.drop_last()[x] == 0 by {
            assert(after[x] == 0);
        }
        lemma_count_monotone(before.drop_last(), after.drop_last());
        if after.last() == 0 {
            assert(after[after.len() - 1] == 0);
        }
    }
}

/// Searches the graph for a cycle, from every node in turn: a node on a
/// cycle where there is one, and none where the graph has no cycle.
pub fn find_cycle(adj: &Vec<Vec<usize>>) -> (found: Option<usize>)
    ensures
        match found {
            Some(c) => c < adj@.len() && on_cycle(graph_view(adj@), c as int),
            None => acyclic(graph_view(adj@)),
        },
{
    let ghost graph = graph_view(adj@);
    let n = adj.len();
    let mut marks: Vec<u128> = Vec::new();
    let mut i: usize = 0;
    while i < n
        invariant
            i <= n,
            marks@.len() == i,
            count_below(marks@, 2) == i,
            forall|x: int| 0 <= x < i ==> (#[trigger] marks@[x]) == 0,
        decreases n - i,
    {
        let ghost earlier = marks@;
        marks.push(0);
        proof {
            assert(marks@.drop_last() =~= earlier);
        }
        i = i + 1;
    }
    let mut next: u128 = 2;
    let ghost empty = Seq::<int>::empty();
    proof {
        lemma_search_begins(graph, marks@);
    }
    let mut root: usize = 0;
    while root < n
        invariant
            root <= n,
            n == adj@.len(),
            marks@.len() == n,
            graph == graph_view(adj@),
            empty == Seq::<int>::empty(),
            search_inv(graph, marks@, next),
            stack_inv(graph, marks@, empty),
            forall|x: int| 0 <= x < root ==> done(#[trigger] marks@[x]),
        decreases n - root,
    {
        if marks[root] == 0 {
            let ghost here = marks@;
            match visit(adj, &mut marks, &mut next, root, Ghost(empty)) {
                Some(c) => {
                    return Some(c);
                },
                None => {
                    proof {
                        assert forall|x: int| 0 <= x < root + 1 implies done(
                            #[trigger] marks@[x],
                        ) by {
                            if x < root {
                                assert(done(here[x]));
                            }
                        }
                    }
                },
            }
        } else {
            proof {
                lemma_none_followed(graph, marks@, root as int);
            }
        }
        root = root + 1;
    }
    proof {
        lemma_all_done_acyclic(graph, marks@, next);
    }
    None
}

/// The rule, if there is one, that can call itself before any input is
/// consumed, under the nullability flags that the rules carry. It returns a
/// rule on a cycle of the call graph, and none exactly where the call graph
/// has no cycle.
pub fn find_undecidable_rule(rules: &Vec<Rule>) -> (found: Option<usize>)
    ensures
        match found {
            Some(index) => index < rules@.len() && on_cycle(
                call_graph(nodes_of(rule_views(rules@)), flags_of(rule_views(rules@))),
                index as int,
            ),
            None => acyclic(
                call_graph(nodes_of(rule_views(rules@)), flags_of(rule_views(rules@))),
            ),
        },
{
    let ghost nodes = nodes_of(rule_views(rules@));
    let ghost flags = flags_of(rule_views(rules@));
    let mut adj: Vec<Vec<usize>> = Vec::new();
    let mut i: usize = 0;
    while i < rules.len()
        invariant
            i <= rules@.len(),
            adj@.len() == i,
            nodes == nodes_of(rule_views(rules@)),
            flags == flags_of(rule_views(rules@)),
            forall|k: int| 0 <= k < i ==> held((#[trigger] adj@[k])@) == nodes[k].calls(flags),
        decreases rules@.len() - i,
    {
        let mut calls: Vec<usize> = Vec::new();
        proof {
            assert(held(calls@) =~= Set::<int>::empty());
        }
        collect_calls(&rules[i].node, rules, &mut calls);
        proof {
            assert(held(calls@) =~= nodes[i as int].calls(flags));
        }
        adj.push(calls);
        i = i + 1;
    }
    proof {
        assert(graph_view(adj@) =~= call_graph(nodes, flags));
    }
    find_cycle(&adj)
}

} // verus!
