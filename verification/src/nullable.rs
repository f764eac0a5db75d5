//! The nullability analysis: which rules of a table accept the empty text.

use vstd::prelude::*;

use crate::grammar::Rule;
use crate::grammar::RuleView;
use crate::grammar::rule_views;
use crate::grammar_dsl::NormalizedNode;
use crate::grammar_dsl::NormalizedView;
use crate::grammar_dsl::lemma_normalized_views;
use crate::grammar_dsl::normalized_views;

verus! {

impl NormalizedView {
    /// Whether the expression accepts the empty text, where `flags` says it
    /// of each rule: a terminal by its matcher, a choice where some branch
    /// does, a sequence where every part does, a reference by the flag of its
    /// rule.
    pub open spec fn nullable_under(self, flags: Seq<bool>) -> bool
        decreases self,
    {
        match self {
            NormalizedView::Terminal(m) => m.nullable(),
            NormalizedView::Choice(nodes) => exists|i: int|
                0 <= i < nodes.len() && (#[trigger] nodes[i]).nullable_under(flags),
            NormalizedView::Sequence(nodes) => forall|i: int|
                0 <= i < nodes.len() ==> (#[trigger] nodes[i]).nullable_under(flags),
            NormalizedView::Reference(index) => 0 <= index < flags.len() && flags[index],
            NormalizedView::Placeholder => false,
        }
    }
}

/// The nullability flags that the rules carry.
pub open spec fn flags_of(rules: Seq<RuleView>) -> Seq<bool> {
    Seq::new(rules.len(), |i: int| rules[i].is_nullable)
}

/// The bodies of the rules.
pub open spec fn nodes_of(rules: Seq<RuleView>) -> Seq<NormalizedView> {
    Seq::new(rules.len(), |i: int| rules[i].node)
}

/// Every flag that is set is borne out by the rule's body.
pub open spec fn justified(nodes: Seq<NormalizedView>, flags: Seq<bool>) -> bool {
    &&& flags.len() == nodes.len()
    &&& forall|i: int| 0 <= i < nodes.len() && flags[i] ==> (#[trigger] nodes[i]).nullable_under(flags)
}

/// Every rule whose body accepts the empty text has its flag set.
pub open spec fn closed(nodes: Seq<NormalizedView>, flags: Seq<bool>) -> bool {
    &&& flags.len() == nodes.len()
    &&& forall|i: int| 0 <= i < nodes.len() && (#[trigger] nodes[i]).nullable_under(flags) ==> flags[i]
}

/// The flags are a fixpoint: each is what the rule's body gives under them.
pub open spec fn stable(nodes: Seq<NormalizedView>, flags: Seq<bool>) -> bool {
    justified(nodes, flags) && closed(nodes, flags)
}

/// `small` sets no flag that `large` does not set.
pub open spec fn below(small: Seq<bool>, large: Seq<bool>) -> bool {
    &&& small.len() == large.len()
    &&& forall|i: int| 0 <= i < small.len() && small[i] ==> large[i]
}

/// The flags are the least fixpoint: a fixpoint below every closed
/// assignment of flags.
pub open spec fn least_stable(nodes: Seq<NormalizedView>, flags: Seq<bool>) -> bool {
    &&& stable(nodes, flags)
    &&& forall|other: Seq<bool>| #[trigger] closed(nodes, other) ==> below(flags, other)
}

/// The number of flags that are not set.
pub open spec fn unset(flags: Seq<bool>) -> nat
    decreases flags.len(),
{
    if flags.len() == 0 {
        0
    } else {
        unset(flags.drop_last()) + if flags.last() {
            0nat
        } else {
            1nat
        }
    }
}

/// Setting a flag that was not set leaves one fewer unset.
proof fn lemma_unset_update(flags: Seq<bool>, i: int)
    requires
        0 <= i < flags.len(),
        !flags[i],
    ensures
        unset(flags.update(i, true)) + 1 == unset(flags),
    decreases flags.len(),
{
    let after = flags.update(i, true);
    if i == flags.len() - 1 {
        assert(after.drop_last() =~= flags.drop_last());
    } else {
        assert(after.drop_last() =~= flags.drop_last().update(i, true));
        lemma_unset_update(flags.drop_last(), i);
    }
}

/// An expression that accepts the empty text under some flags does so under
/// all flags above them.
pub proof fn lemma_nullable_monotone(node: NormalizedView, small: Seq<bool>, large: Seq<bool>)
    requires
        below(small, large),
        node.nullable_under(small),
    ensures
        node.nullable_under(large),
    decreases node,
{
    match node {
        NormalizedView::Choice(nodes) => {
            let i = choose|i: int| 0 <= i < nodes.len() && (#[trigger] nodes[i]).nullable_under(small);
            lemma_nullable_monotone(nodes[i], small, large);
        },
        NormalizedView::Sequence(nodes) => {
            assert forall|i: int| 0 <= i < nodes.len() implies (#[trigger] nodes[i]).nullable_under(
                large,
            ) by {
                lemma_nullable_monotone(nodes[i], small, large);
            }
        },
        _ => {},
    }
}

/// There is one least fixpoint at most.
pub proof fn lemma_least_stable_unique(
    nodes: Seq<NormalizedView>,
    first: Seq<bool>,
    second: Seq<bool>,
)
    requires
        least_stable(nodes, first),
        least_stable(nodes, second),
    ensures
        first == second,
{
    assert(closed(nodes, first));
    assert(closed(nodes, second));
    assert(below(first, second));
    assert(below(second, first));
    assert(first =~= second);
}

/// The analysis is idempotent: the analysis of an analysed table is that
/// table.
pub proof fn lemma_analysis_idempotent(
    before: Seq<RuleView>,
    once: Seq<RuleView>,
    twice: Seq<RuleView>,
)
    requires
        same_but_flags(before, once),
        least_stable(nodes_of(before), flags_of(once)),
        same_but_flags(once, twice),
        least_stable(nodes_of(once), flags_of(twice)),
    ensures
        twice == once,
{
    assert(nodes_of(once) =~= nodes_of(before));
    lemma_least_stable_unique(nodes_of(before), flags_of(once), flags_of(twice));
    assert forall|i: int| 0 <= i < once.len() implies twice[i] == once[i] by {
        assert(flags_of(twice)[i] == flags_of(once)[i]);
    }
    assert(twice =~= once);
}

/// A choice accepts the empty text exactly where one of its branches does.
pub proof fn lemma_choice_nullable(nodes: Seq<NormalizedView>, flags: Seq<bool>)
    ensures
        NormalizedView::Choice(nodes).nullable_under(flags) == (exists|k: int|
            0 <= k < nodes.len() && (#[trigger] nodes[k]).nullable_under(flags)),
{
    let node = NormalizedView::Choice(nodes);
    match node {
        NormalizedView::Choice(inner) => {
            assert(inner == nodes);
        },
        _ => {},
    }
}

/// A sequence accepts the empty text exactly where each of its parts does.
pub proof fn lemma_sequence_nullable(nodes: Seq<NormalizedView>, flags: Seq<bool>)
    ensures
        NormalizedView::Sequence(nodes).nullable_under(flags) == (forall|k: int|
            0 <= k < nodes.len() ==> (#[trigger] nodes[k]).nullable_under(flags)),
{
    let node = NormalizedView::Sequence(nodes);
    match node {
        NormalizedView::Sequence(inner) => {
            assert(inner == nodes);
        },
        _ => {},
    }
}

/// The flags after the first `count` rules of one pass: each rule in turn
/// has its flag set where its body accepts the empty text under the flags as
/// they stand by then.
pub open spec fn sweep(nodes: Seq<NormalizedView>, flags: Seq<bool>, count: nat) -> Seq<bool>
    decreases count,
{
    if count == 0 {
        flags
    } else {
        let before = sweep(nodes, flags, (count - 1) as nat);
        before.update(
            count - 1,
            before[count - 1] || nodes[count - 1].nullable_under(before),
        )
    }
}

/// A pass over flags that are a fixpoint changes none of them.
pub proof fn lemma_sweep_stable(nodes: Seq<NormalizedView>, flags: Seq<bool>, count: nat)
    requires
        stable(nodes, flags),
        count <= nodes.len(),
    ensures
        sweep(nodes, flags, count) == flags,
    decreases count,
{
    if count > 0 {
        lemma_sweep_stable(nodes, flags, (count - 1) as nat);
        assert(flags.update(
            count - 1,
            flags[count - 1] || nodes[count - 1].nullable_under(flags),
        ) =~= flags);
    }
}

/// Whether `after` holds the rules of `before` with nothing but their
/// nullability flags changed.
pub open spec fn same_but_flags(before: Seq<RuleView>, after: Seq<RuleView>) -> bool {
    &&& after.len() == before.len()
    &&& forall|i: int|
        0 <= i < before.len() ==> {
            &&& (#[trigger] after[i]).name == before[i].name
            &&& after[i].node == before[i].node
            &&& after[i].is_recursive == before[i].is_recursive
        }
}

/// Whether `node` accepts the empty text under the flags that `rules` carry.
pub fn node_nullable(node: &NormalizedNode, rules: &Vec<Rule>) -> (b: bool)
    ensures
        b == node@.nullable_under(flags_of(rule_views(rules@))),
    decreases node, 0nat,
{
    match node {
        NormalizedNode::Terminal(m) => m.is_nullable(),
        NormalizedNode::Choice(nodes) => any_nullable(nodes, rules),
        NormalizedNode::Sequence(nodes) => all_nullable(nodes, rules),
        NormalizedNode::Reference(index) => *index < rules.len() && rules[*index].is_nullable,
        NormalizedNode::Placeholder => false,
    }
}

/// Whether one of `nodes` accepts the empty text.
fn any_nullable(nodes: &Vec<NormalizedNode>, rules: &Vec<Rule>) -> (b: bool)
    ensures
        b == NormalizedView::Choice(normalized_views(nodes@)).nullable_under(
            flags_of(rule_views(rules@)),
        ),
    decreases nodes, 1nat,
{
    let ghost flags = flags_of(rule_views(rules@));
    let ghost views = normalized_views(nodes@);
    proof {
        lemma_normalized_views(nodes@);
        lemma_choice_nullable(views, flags);
    }
    let mut i: usize = 0;
    while i < nodes.len()
        invariant
            i <= nodes.len(),
            flags == flags_of(rule_views(rules@)),
            views == normalized_views(nodes@),
            views.len() == nodes@.len(),
            NormalizedView::Choice(views).nullable_under(flags) == (exists|k: int|
                0 <= k < views.len() && (#[trigger] views[k]).nullable_under(flags)),
            forall|k: int| 0 <= k < nodes@.len() ==> (#[trigger] views[k]) == nodes@[k]@,
            forall|k: int| 0 <= k < i ==> !(#[trigger] views[k]).nullable_under(flags),
        decreases nodes.len() - i,
    {
        if node_nullable(&nodes[i], rules) {
            assert(views[i as int].nullable_under(flags));
            return true;
        }
        i = i + 1;
    }
    false
}

/// Whether every one of `nodes` accepts the empty text.
fn all_nullable(nodes: &Vec<NormalizedNode>, rules: &Vec<Rule>) -> (b: bool)
    ensures
        b == NormalizedView::Sequence(normalized_views(nodes@)).nullable_under(
            flags_of(rule_views(rules@)),
        ),
    decreases nodes, 1nat,
{
    let ghost flags = flags_of(rule_views(rules@));
    let ghost views = normalized_views(nodes@);
    proof {
        lemma_normalized_views(nodes@);
        lemma_sequence_nullable(views, flags);
    }
    let mut i: usize = 0;
    while i < nodes.len()
        invariant
            i <= nodes.len(),
            flags == flags_of(rule_views(rules@)),
            views == normalized_views(nodes@),
            views.len() == nodes@.len(),
            NormalizedView::Sequence(views).nullable_under(flags) == (forall|k: int|
                0 <= k < views.len() ==> (#[trigger] views[k]).nullable_under(flags)),
            forall|k: int| 0 <= k < nodes@.len() ==> (#[trigger] views[k]) == nodes@[k]@,
            forall|k: int| 0 <= k < i ==> (#[trigger] views[k]).nullable_under(flags),
        decreases nodes.len() - i,
    {
        if !node_nullable(&nodes[i], rules) {
            assert(!views[i as int].nullable_under(flags));
            return false;
        }
        i = i + 1;
    }
    true
}

/// One pass of the analysis: sets the flag of every rule whose body accepts
/// the empty text under the flags as they stand, and tells whether a flag
/// changed.
pub fn nullability_pass(rules: &mut Vec<Rule>) -> (changed: bool)
    ensures
        same_but_flags(rule_views(old(rules)@), rule_views(final(rules)@)),
        flags_of(rule_views(final(rules)@)) == sweep(
            nodes_of(rule_views(old(rules)@)),
            flags_of(rule_views(old(rules)@)),
            old(rules)@.len(),
        ),
        below(flags_of(rule_views(old(rules)@)), flags_of(rule_views(final(rules)@))),
        changed == (flags_of(rule_views(final(rules)@)) != flags_of(rule_views(old(rules)@))),
        stable(nodes_of(rule_views(old(rules)@)), flags_of(rule_views(old(rules)@))) ==> !changed,
        changed ==> unset(flags_of(rule_views(final(rules)@))) < unset(
            flags_of(rule_views(old(rules)@)),
        ),
        !changed ==> closed(
            nodes_of(rule_views(old(rules)@)),
            flags_of(rule_views(old(rules)@)),
        ),
        justified(nodes_of(rule_views(old(rules)@)), flags_of(rule_views(old(rules)@)))
            ==> justified(
            nodes_of(rule_views(old(rules)@)),
            flags_of(rule_views(final(rules)@)),
        ),
        forall|other: Seq<bool>|
            #![trigger closed(nodes_of(rule_views(old(rules)@)), other)]
            closed(nodes_of(rule_views(old(rules)@)), other) && below(
                flags_of(rule_views(old(rules)@)),
                other,
            ) ==> below(flags_of(rule_views(final(rules)@)), other),
{
    let ghost before = rule_views(rules@);
    let ghost nodes = nodes_of(before);
    let ghost start = flags_of(before);
    let n = rules.len();
    let mut changed = false;
    let mut i: usize = 0;
    while i < n
        invariant
            i <= n,
            n == rules@.len(),
            before.len() == n,
            nodes == nodes_of(before),
            start == flags_of(before),
            same_but_flags(before, rule_views(rules@)),
            flags_of(rule_views(rules@)) == sweep(nodes, start, i as nat),
            below(start, flags_of(rule_views(rules@))),
            changed == (flags_of(rule_views(rules@)) != start),
            changed ==> unset(flags_of(rule_views(rules@))) < unset(start),
            !changed ==> forall|j: int|
                0 <= j < i && (#[trigger] nodes[j]).nullable_under(start) ==> start[j],
            justified(nodes, start) ==> justified(nodes, flags_of(rule_views(rules@))),
            forall|other: Seq<bool>|
                #![trigger closed(nodes, other)]
                closed(nodes, other) && below(start, other) ==> below(
                    flags_of(rule_views(rules@)),
                    other,
                ),
        decreases n - i,
    {
        let ghost here = rule_views(rules@);
        let ghost flags = flags_of(here);
        let b = node_nullable(&rules[i].node, rules);
        assert(rule_views(rules@)[i as int].node == nodes[i as int]);
        if b && !rules[i].is_nullable {
            rules[i].is_nullable = true;
            proof {
                let after = flags_of(rule_views(rules@));
                assert(after =~= flags.update(i as int, true));
                lemma_unset_update(flags, i as int);
                assert(below(flags, after));
                assert(!start[i as int]);
                assert(after != start) by {
                    assert(after[i as int] != start[i as int]);
                }
                if justified(nodes, start) {
                    assert forall|j: int| 0 <= j < nodes.len() && after[j] implies (
                    #[trigger] nodes[j]).nullable_under(after) by {
                        if j == i {
                            lemma_nullable_monotone(nodes[j], flags, after);
                        } else {
                            assert(flags[j]);
                            lemma_nullable_monotone(nodes[j], flags, after);
                        }
                    }
                }
                assert forall|other: Seq<bool>|
                    #![trigger closed(nodes, other)]
                    closed(nodes, other) && below(start, other) implies below(after, other) by {
                    assert(below(flags, other));
                    lemma_nullable_monotone(nodes[i as int], flags, other);
                }
                assert forall|j: int| 0 <= j < before.len() implies {
                    &&& (#[trigger] rule_views(rules@)[j]).name == before[j].name
                    &&& rule_views(rules@)[j].node == before[j].node
                    &&& rule_views(rules@)[j].is_recursive == before[j].is_recursive
                } by {
                    assert(here[j].name == before[j].name);
                }
            }
            changed = true;
        } else {
            proof {
                if !changed {
                    assert(flags =~= start);
                }
                assert(flags =~= flags.update(i as int, flags[i as int] || b));
            }
        }
        i = i + 1;
    }
    proof {
        if !changed {
            assert(flags_of(rule_views(rules@)) =~= start);
        }
        if stable(nodes, start) {
            assert(closed(nodes, start));
            assert(below(flags_of(rule_views(rules@)), start));
            assert(flags_of(rule_views(rules@)) =~= start);
        }
    }
    changed
}

/// Computes the nullability flag of every rule: the flags are cleared, and
/// passes are made until one changes nothing.
pub fn analyze_nullability(rules: &mut Vec<Rule>)
    ensures
        same_but_flags(rule_views(old(rules)@), rule_views(final(rules)@)),
        least_stable(
            nodes_of(rule_views(old(rules)@)),
            flags_of(rule_views(final(rules)@)),
        ),
{
    let ghost before = rule_views(rules@);
    let ghost nodes = nodes_of(before);
    let n = rules.len();
    let mut i: usize = 0;
    while i < n
        invariant
            i <= n,
            n == rules@.len(),
            same_but_flags(before, rule_views(rules@)),
            forall|j: int| 0 <= j < i ==> !(#[trigger] rules@[j]).is_nullable,
        decreases n - i,
    {
        let ghost here = rule_views(rules@);
        rules[i].is_nullable = false;
        proof {
            assert forall|j: int| 0 <= j < before.len() implies {
                &&& (#[trigger] rule_views(rules@)[j]).name == before[j].name
                &&& rule_views(rules@)[j].node == before[j].node
                &&& rule_views(rules@)[j].is_recursive == before[j].is_recursive
            } by {
                assert(here[j].name == before[j].name);
            }
        }
        i = i + 1;
    }
    proof {
        let flags = flags_of(rule_views(rules@));
        assert(nodes_of(rule_views(rules@)) =~= nodes);
        assert forall|j: int| 0 <= j < flags.len() implies !flags[j] by {
            assert(!rules@[j].is_nullable);
        }
    }
    let mut changed = true;
    while changed
        invariant
            same_but_flags(before, rule_views(rules@)),
            nodes == nodes_of(before),
            nodes_of(rule_views(rules@)) == nodes,
            justified(nodes, flags_of(rule_views(rules@))),
            forall|other: Seq<bool>| #[trigger]
                closed(nodes, other) ==> below(flags_of(rule_views(rules@)), other),
            !changed ==> closed(nodes, flags_of(rule_views(rules@))),
        decreases
                unset(flags_of(rule_views(rules@))) + if changed {
                    1nat
                } else {
                    0nat
                },
    {
        let ghost here = rule_views(rules@);
        changed = nullability_pass(rules);
        proof {
            assert(nodes_of(rule_views(rules@)) =~= nodes);
            assert forall|j: int| 0 <= j < before.len() implies {
                &&& (#[trigger] rule_views(rules@)[j]).name == before[j].name
                &&& rule_views(rules@)[j].node == before[j].node
                &&& rule_views(rules@)[j].is_recursive == before[j].is_recursive
            } by {
                assert(here[j].name == before[j].name);
            }
        }
    }
}

} // verus!
