//! Compiled grammars: the rule table, the errors of compilation, and the
//! definitions that a grammar is compiled from.

use vstd::prelude::*;

use vstd::string::StringExecFns;

use crate::grammar_dsl::GrammarNode;
use crate::grammar_dsl::GrammarView;
use crate::grammar_dsl::NormalizedNode;
use crate::grammar_dsl::NormalizedView;
use crate::decide::acyclic;
use crate::decide::call_graph;
use crate::decide::find_undecidable_rule;
use crate::decide::edge;
use crate::decide::is_path;
use crate::decide::lemma_choice_calls;
use crate::decide::lemma_sequence_calls;
use crate::decide::on_cycle;
use crate::decide::open_until;
use crate::grammar_dsl::lemma_normalized_views;
use crate::grammar_dsl::normalized_views;
use crate::normalize::HandleIndex;
use crate::normalize::Normalizer;
use crate::normalize::TableView;
use crate::normalize::lemma_norm_table;
use crate::normalize::norm;
use crate::normalize::epsilon;
use crate::normalize::repetition;
use crate::nullable::analyze_nullability;
use crate::nullable::lemma_choice_nullable;
use crate::nullable::lemma_sequence_nullable;
use crate::nullable::stable;
use crate::nullable::flags_of;
use crate::nullable::least_stable;
use crate::nullable::nodes_of;
use crate::nullable::same_but_flags;

verus! {

/// Why a grammar was not compiled.
#[derive(Debug, Clone)]
pub enum EvaluationError {
    /// The named rule can call itself without consuming input.
    UndecidableRule(String),
    /// A rule can never match. Kept for an analysis that is not made here:
    /// no function of this library returns it.
    AlwaysFails,
}

/// What a tree node records of a parse that went wrong.
#[derive(Debug, Clone, PartialEq, Eq, Hash)]
#[allow(inconsistent_fields)]
pub enum GrammarError {
    Placeholder,
    RuleMismatch { expected: usize },
    TokenMismatch { expected: String },
}

/// What a tree-level error is, with its text as a sequence of characters.
#[allow(inconsistent_fields)]
pub enum GrammarErrorView {
    Placeholder,
    RuleMismatch { expected: usize },
    TokenMismatch { expected: Seq<char> },
}

impl View for GrammarError {
    type V = GrammarErrorView;

    open spec fn view(&self) -> GrammarErrorView {
        match *self {
            GrammarError::Placeholder => GrammarErrorView::Placeholder,
            GrammarError::RuleMismatch { expected } => GrammarErrorView::RuleMismatch { expected },
            GrammarError::TokenMismatch { expected } => GrammarErrorView::TokenMismatch {
                expected: expected@,
            },
        }
    }
}

/// One entry of a rule table.
#[derive(Debug)]
pub struct Rule {
    pub name: String,
    pub node: NormalizedNode,
    /// While the rule was normalized, a reference met a rule that was still
    /// under construction.
    pub is_recursive: bool,
    /// The rule accepts the empty text.
    pub is_nullable: bool,
}

/// What a rule is, with sequences in place of strings and vectors.
pub struct RuleView {
    pub name: Seq<char>,
    pub node: NormalizedView,
    pub is_recursive: bool,
    pub is_nullable: bool,
}

impl View for Rule {
    type V = RuleView;

    open spec fn view(&self) -> RuleView {
        RuleView {
            name: self.name@,
            node: self.node@,
            is_recursive: self.is_recursive,
            is_nullable: self.is_nullable,
        }
    }
}

/// The views of a sequence of rules.
pub open spec fn rule_views(rules: Seq<Rule>) -> Seq<RuleView> {
    Seq::new(rules.len(), |i: int| rules[i]@)
}

/// The expressions that rules are defined by, each under its handle.
pub struct Definitions {
    handles: Vec<usize>,
    bodies: Vec<GrammarNode>,
}

impl Definitions {
    /// Every handle has one expression, and no handle stands twice.
    pub closed spec fn wf(&self) -> bool {
        &&& self.handles@.len() == self.bodies@.len()
        &&& self.handles@.no_duplicates()
    }

    /// The definitions as a map from handles to expressions.
    pub closed spec fn map(&self) -> Map<usize, GrammarView> {
        Map::new(
            |handle: usize| self.handles@.contains(handle),
            |handle: usize| self.bodies@[self.handles@.index_of(handle)]@,
        )
    }

    /// How many handles are defined.
    pub closed spec fn count(&self) -> nat {
        self.handles@.len()
    }

    /// The handles that are defined are finitely many: `count` of them.
    pub proof fn lemma_count(&self)
        requires
            self.wf(),
        ensures
            self.map().dom().finite(),
            self.map().dom().len() == self.count(),
    {
        assert(self.map().dom() =~= self.handles@.to_set());
        vstd::seq_lib::seq_to_set_is_finite(self.handles@);
        self.handles@.unique_seq_to_set();
    }

    /// No definitions.
    pub fn new() -> (defs: Definitions)
        ensures
            defs.wf(),
            defs.map() == Map::<usize, GrammarView>::empty(),
            defs.count() == 0,
    {
        let defs = Definitions { handles: Vec::new(), bodies: Vec::new() };
        assert(defs.map() =~= Map::<usize, GrammarView>::empty());
        defs
    }

    /// Where `handle` stands among the handles, if it is defined.
    fn find(&self, handle: usize) -> (at: Option<usize>)
        ensures
            match at {
                Some(i) => i < self.handles@.len() && self.handles@[i as int] == handle,
                None => !self.handles@.contains(handle),
            },
    {
        let mut i: usize = 0;
        while i < self.handles.len()
            invariant
                i <= self.handles@.len(),
                forall|k: int| 0 <= k < i ==> self.handles@[k] != handle,
            decreases self.handles@.len() - i,
        {
            if self.handles[i] == handle {
                return Some(i);
            }
            i = i + 1;
        }
        None
    }

    /// Defines `handle` as `body`; an earlier definition of it is replaced.
    pub fn define(&mut self, handle: usize, body: GrammarNode)
        requires
            old(self).wf(),
        ensures
            final(self).wf(),
            final(self).map() == old(self).map().insert(handle, body@),
            final(self).count() == if old(self).map().contains_key(handle) {
                old(self).count()
            } else {
                old(self).count() + 1
            },
    {
        let ghost before = self.map();
        match self.find(handle) {
            Some(i) => {
                self.bodies.set(i, body);
                assert(self.map() =~= before.insert(handle, body@)) by {
                    assert forall|h: usize| self.handles@.contains(h) implies #[trigger] self.map()[h]
                        == before.insert(handle, body@)[h] by {
                        let k = self.handles@.index_of(h);
                        if h == handle {
                            assert(k == i);
                        }
                    }
                }
            },
            None => {
                let ghost old_handles = self.handles@;
                self.handles.push(handle);
                self.bodies.push(body);
                assert(self.map() =~= before.insert(handle, body@)) by {
                    assert forall|h: usize| #[trigger] self.handles@.contains(h) <==> (
                    old_handles.contains(h) || h == handle) by {
                        if old_handles.contains(h) {
                            let k = old_handles.index_of(h);
                            assert(self.handles@[k] == h);
                        }
                        if h == handle {
                            assert(self.handles@[old_handles.len() as int] == h);
                        }
                    }
                    assert forall|h: usize| self.handles@.contains(h) implies #[trigger] self.map()[h]
                        == before.insert(handle, body@)[h] by {
                        let k = self.handles@.index_of(h);
                        if h != handle {
                            let k0 = old_handles.index_of(h);
                            assert(self.handles@[k0] == h);
                            assert(k == k0);
                        } else {
                            assert(self.handles@[old_handles.len() as int] == h);
                            assert(k == old_handles.len());
                        }
                    }
                }
            },
        }
    }

    /// The expression that `handle` is defined as.
    pub fn get(&self, handle: usize) -> (body: Option<&GrammarNode>)
        requires
            self.wf(),
        ensures
            match body {
                Some(node) => self.map().contains_key(handle) && node@ == self.map()[handle],
                None => !self.map().contains_key(handle),
            },
    {
        match self.find(handle) {
            Some(i) => {
                assert(self.handles@.index_of(handle) == i);
                Some(&self.bodies[i])
            },
            None => None,
        }
    }

    /// The number of handles defined.
    pub fn len(&self) -> (n: usize)
        ensures
            n == self.count(),
    {
        self.handles.len()
    }
}

/// A copy of `node` with `offset` added to every reference.
pub fn shift_references(node: &NormalizedNode, offset: usize) -> (out: NormalizedNode)
    requires
        node@.refs_below(usize::MAX - offset + 1),
    ensures
        out@ == node@.shift(offset as int),
    decreases node, 0nat,
{
    match node {
        NormalizedNode::Reference(index) => NormalizedNode::Reference(*index + offset),
        NormalizedNode::Choice(nodes) => {
            proof {
                lemma_shift_choice(normalized_views(nodes@), offset as int);
            }
            NormalizedNode::Choice(shift_all(nodes, offset))
        },
        NormalizedNode::Sequence(nodes) => {
            proof {
                lemma_shift_sequence(normalized_views(nodes@), offset as int);
            }
            NormalizedNode::Sequence(shift_all(nodes, offset))
        },
        NormalizedNode::Terminal(m) => NormalizedNode::Terminal(m.duplicate()),
        NormalizedNode::Placeholder => NormalizedNode::Placeholder,
    }
}

/// The expressions of `nodes` shifted, each by `offset`.
pub open spec fn shifted(nodes: Seq<NormalizedView>, offset: int) -> Seq<NormalizedView> {
    Seq::new(nodes.len(), |i: int| nodes[i].shift(offset))
}

/// A shifted choice is the choice of the shifted branches.
pub proof fn lemma_shift_choice(nodes: Seq<NormalizedView>, offset: int)
    ensures
        NormalizedView::Choice(nodes).shift(offset) == NormalizedView::Choice(
            shifted(nodes, offset),
        ),
{
    let node = NormalizedView::Choice(nodes);
    match node {
        NormalizedView::Choice(inner) => {
            assert(inner == nodes);
            assert(node.shift(offset)->Choice_0 =~= shifted(nodes, offset));
        },
        _ => {},
    }
}

/// A shifted sequence is the sequence of the shifted parts.
pub proof fn lemma_shift_sequence(nodes: Seq<NormalizedView>, offset: int)
    ensures
        NormalizedView::Sequence(nodes).shift(offset) == NormalizedView::Sequence(
            shifted(nodes, offset),
        ),
{
    let node = NormalizedView::Sequence(nodes);
    match node {
        NormalizedView::Sequence(inner) => {
            assert(inner == nodes);
            assert(node.shift(offset)->Sequence_0 =~= shifted(nodes, offset));
        },
        _ => {},
    }
}

/// Copies of `nodes`, each with `offset` added to every reference.
fn shift_all(nodes: &Vec<NormalizedNode>, offset: usize) -> (out: Vec<NormalizedNode>)
    requires
        forall|i: int|
            0 <= i < nodes@.len() ==> (#[trigger] normalized_views(nodes@)[i]).refs_below(
                usize::MAX - offset + 1,
            ),
    ensures
        normalized_views(out@) == shifted(normalized_views(nodes@), offset as int),
    decreases nodes, 1nat,
{
    let ghost views = normalized_views(nodes@);
    proof {
        lemma_normalized_views(nodes@);
    }
    let mut out: Vec<NormalizedNode> = Vec::new();
    let mut i: usize = 0;
    while i < nodes.len()
        invariant
            i <= nodes.len(),
            views == normalized_views(nodes@),
            views.len() == nodes@.len(),
            forall|k: int| 0 <= k < nodes@.len() ==> (#[trigger] views[k]) == nodes@[k]@,
            forall|k: int|
                0 <= k < nodes@.len() ==> (#[trigger] views[k]).refs_below(
                    usize::MAX - offset + 1,
                ),
            out@.len() == i,
            forall|k: int| 0 <= k < i ==> (#[trigger] out@[k])@ == views[k].shift(offset as int),
        decreases nodes.len() - i,
    {
        assert(views[i as int].refs_below(usize::MAX - offset + 1));
        out.push(shift_references(&nodes[i], offset));
        i = i + 1;
    }
    proof {
        lemma_normalized_views(out@);
        assert(normalized_views(out@) =~= shifted(views, offset as int));
    }
    out
}

/// The rule table that `root` and the definitions give, before its analysis:
/// the rule `START`, whose body is the normal form of `root`, and behind it
/// the rules in the order in which normalizing met them, every reference
/// moved up by one.
pub open spec fn assemble(root: GrammarView, defs: Map<usize, GrammarView>, depth: nat) -> Seq<
    RuleView,
> {
    let (start, rec, table) = norm(root, TableView::empty(), defs, "START"@, depth);
    seq![
        RuleView { name: "START"@, node: start.shift(1), is_recursive: rec, is_nullable: false },
    ] + Seq::new(
        table.rules.len(),
        |i: int|
            RuleView {
                name: table.rules[i].name,
                node: table.rules[i].node.shift(1),
                is_recursive: table.rules[i].is_recursive,
                is_nullable: false,
            },
    )
}

/// A compiled grammar: a rule table with its nullability flags, in which no
/// rule can call itself before input is consumed.
pub struct Grammar {
    rules: Vec<Rule>,
    index: HandleIndex,
}

impl Grammar {
    /// The rule table.
    pub closed spec fn rules(&self) -> Seq<RuleView> {
        rule_views(self.rules@)
    }

    /// The handles of the grammar's rules, in the order in which they were
    /// met.
    pub closed spec fn handles(&self) -> Seq<usize> {
        self.index.handles()
    }

    /// The index in the rule table of the rule of `handle`.
    pub closed spec fn index_of(&self, handle: usize) -> int {
        self.index.slot_of(handle) + 1
    }

    /// Every handle has the index of a rule.
    pub closed spec fn wf(&self) -> bool {
        &&& self.index.wf()
        &&& forall|k: int|
            0 <= k < self.index.slots().len() ==> 0 <= #[trigger] self.index.slots()[k]
                < self.rules@.len() - 1
    }

    /// Whether this is the grammar of `root` under the definitions: its
    /// rules are those assembled from them, with the least fixpoint of
    /// nullability for flags; its call graph has no cycle; and its handles
    /// are those that normalizing met.
    pub open spec fn compiled_from(
        &self,
        root: GrammarView,
        defs: Map<usize, GrammarView>,
        depth: nat,
    ) -> bool {
        let table = norm(root, TableView::empty(), defs, "START"@, depth).2;
        &&& self.wf()
        &&& same_but_flags(assemble(root, defs, depth), self.rules())
        &&& least_stable(nodes_of(assemble(root, defs, depth)), flags_of(self.rules()))
        &&& acyclic(call_graph(nodes_of(self.rules()), flags_of(self.rules())))
        &&& self.handles() == table.handles
        &&& forall|handle: usize|
            table.handles.contains(handle) ==> self.index_of(handle) == table.slot_of(handle) + 1
    }

    /// Compiles the grammar whose start is `root` and whose rules have the
    /// definitions `defs`. The grammar is refused where a rule can call
    /// itself before any input is consumed: the error names such a rule.
    pub fn compile(root: &GrammarNode, defs: &Definitions) -> (out: Result<
        Grammar,
        EvaluationError,
    >)
        requires
            defs.wf(),
        ensures
            match out {
                Ok(grammar) => grammar.compiled_from(root@, defs.map(), defs.count()),
                Err(EvaluationError::UndecidableRule(name)) => exists|
                    rules: Seq<RuleView>,
                    index: int,
                |
                    {
                        &&& same_but_flags(assemble(root@, defs.map(), defs.count()), rules)
                        &&& least_stable(
                            nodes_of(assemble(root@, defs.map(), defs.count())),
                            flags_of(rules),
                        )
                        &&& 0 <= index < rules.len()
                        &&& #[trigger] on_cycle(
                            call_graph(nodes_of(rules), flags_of(rules)),
                            index,
                        )
                        &&& name@ == rules[index].name
                    },
                Err(EvaluationError::AlwaysFails) => false,
            },
    {
        let ghost spec_rules = assemble(root@, defs.map(), defs.count());
        let ghost spec_norm = norm(root@, TableView::empty(), defs.map(), "START"@, defs.count());
        let mut table = Normalizer::new();
        let (start, rec) = table.normalize_node(root, defs, "START", defs.len());
        proof {
            lemma_norm_table(root@, TableView::empty(), defs.map(), "START"@, defs.count());
        }
        let (found, index) = table.finish();
        let count = found.len();
        let ghost bound = count as int;
        let mut rules: Vec<Rule> = Vec::new();
        proof {
            crate::normalize::lemma_refs_below_grows(start@, bound, usize::MAX as int);
        }
        rules.push(
            Rule {
                name: String::from_str("START"),
                node: shift_references(&start, 1),
                is_recursive: rec,
                is_nullable: false,
            },
        );
        let mut i: usize = 0;
        while i < found.len()
            invariant
                i <= found@.len(),
                bound == found@.len(),
                rule_views(found@) == spec_norm.2.rules,
                spec_norm.2.wf(),
                spec_rules == assemble(root@, defs.map(), defs.count()),
                spec_norm == norm(root@, TableView::empty(), defs.map(), "START"@, defs.count()),
                rules@.len() == i + 1,
                forall|k: int| 0 <= k < i + 1 ==> (#[trigger] rules@[k])@ == spec_rules[k],
            decreases found@.len() - i,
        {
            let rule = &found[i];
            proof {
                assert(rule_views(found@)[i as int] == rule@);
                assert(spec_norm.2.rules[i as int].node.refs_below(bound));
                crate::normalize::lemma_refs_below_grows(rule@.node, bound, usize::MAX as int);
            }
            rules.push(
                Rule {
                    name: rule.name.clone(),
                    node: shift_references(&rule.node, 1),
                    is_recursive: rule.is_recursive,
                    is_nullable: false,
                },
            );
            i = i + 1;
        }
        proof {
            assert(rule_views(rules@) =~= spec_rules);
        }
        analyze_nullability(&mut rules);
        match find_undecidable_rule(&rules) {
            Some(at) => {
                let name = rules[at].name.clone();
                proof {
                    let witness = rule_views(rules@);
                    assert(nodes_of(witness) =~= nodes_of(spec_rules));
                    assert(on_cycle(call_graph(nodes_of(witness), flags_of(witness)), at as int));
                    assert(name@ == witness[at as int].name);
                }
                Err(EvaluationError::UndecidableRule(name))
            },
            None => {
                let grammar = Grammar { rules, index };
                proof {
                    assert(nodes_of(grammar.rules()) =~= nodes_of(spec_rules));
                }
                Ok(grammar)
            },
        }
    }

    /// The number of rules.
    pub fn len(&self) -> (n: usize)
        ensures
            n == self.rules().len(),
    {
        self.rules.len()
    }

    /// The rule at `index`.
    pub fn rule(&self, index: usize) -> (rule: &Rule)
        requires
            index < self.rules().len(),
        ensures
            rule@ == self.rules()[index as int],
    {
        &self.rules[index]
    }

    /// Whether the rule at `index` accepts the empty text.
    pub fn is_nullable(&self, index: usize) -> (b: bool)
        requires
            index < self.rules().len(),
        ensures
            b == self.rules()[index as int].is_nullable,
    {
        self.rules[index].is_nullable
    }

    /// The rule table as text, one line per rule, for diagnostics.
    pub fn to_bnf(&self) -> (text: String)
        ensures
            text@ == crate::bnf::bnf_rules(self.rules(), self.rules().len()),
    {
        crate::bnf::write_rules(&self.rules)
    }

    /// The index of the rule that was defined under `handle`, if the grammar
    /// has it.
    pub fn rule_index(&self, handle: usize) -> (at: Option<usize>)
        requires
            self.wf(),
        ensures
            match at {
                Some(index) => self.handles().contains(handle) && index == self.index_of(handle)
                    && index < self.rules().len(),
                None => !self.handles().contains(handle),
            },
    {
        let count = self.rules.len();
        match self.index.slot(handle) {
            Some(slot) => {
                proof {
                    let k = self.index.handles().index_of(handle);
                    assert(0 <= self.index.slots()[k] < self.rules@.len() - 1);
                }
                Some(slot + 1)
            },
            None => None,
        }
    }
}

/// The body of a repetition accepts the empty text, whatever its item and
/// whatever the flags, also with its references moved.
pub proof fn lemma_repetition_nullable(
    item: NormalizedView,
    index: int,
    offset: int,
    flags: Seq<bool>,
)
    ensures
        repetition(item, index).shift(offset).nullable_under(flags),
{
    let inner = seq![item, NormalizedView::Reference(index)];
    let outer = seq![NormalizedView::Sequence(inner), epsilon()];
    lemma_shift_choice(outer, offset);
    let moved = shifted(outer, offset);
    lemma_shift_sequence(Seq::empty(), offset);
    assert(shifted(Seq::empty(), offset) =~= Seq::<NormalizedView>::empty());
    assert(moved[1] == outer[1].shift(offset));
    assert(moved[1] == epsilon());
    lemma_sequence_nullable(Seq::empty(), flags);
    lemma_choice_nullable(moved, flags);
    assert(0 <= 1 < moved.len() && moved[1].nullable_under(flags));
}

/// A grammar whose start is `many(x)` has a nullable start, whatever `x` is:
/// under every fixpoint of nullability, the flag of its first rule is set.
pub proof fn lemma_many_nullable(
    inner: GrammarView,
    defs: Map<usize, GrammarView>,
    depth: nat,
    flags: Seq<bool>,
)
    requires
        stable(nodes_of(assemble(GrammarView::Many(Box::new(inner)), defs, depth)), flags),
    ensures
        flags[0],
{
    let rules = assemble(GrammarView::Many(Box::new(inner)), defs, depth);
    let nodes = nodes_of(rules);
    let sub = norm(inner, TableView::empty(), defs, "START"@, depth);
    let m = sub.2.rules.len() as int;
    let whole = norm(GrammarView::Many(Box::new(inner)), TableView::empty(), defs, "START"@, depth);
    assert(whole.0 == NormalizedView::Reference(m));
    assert(whole.2.rules[m].node == repetition(sub.0, m));
    assert(rules[0].node == NormalizedView::Reference(m + 1));
    assert(rules[m + 1].node == repetition(sub.0, m).shift(1));
    lemma_repetition_nullable(sub.0, m, 1, flags);
    assert(nodes[m + 1].nullable_under(flags));
    assert(flags[m + 1]);
    assert(nodes[0].nullable_under(flags));
}

/// A grammar whose start is `some(x)` has a nullable start exactly where
/// `x` is nullable: under every fixpoint of nullability, the flag of its
/// first rule is what the normal form of `x` gives.
pub proof fn lemma_some_nullable(
    inner: GrammarView,
    defs: Map<usize, GrammarView>,
    depth: nat,
    flags: Seq<bool>,
)
    requires
        stable(nodes_of(assemble(GrammarView::OneOrMore(Box::new(inner)), defs, depth)), flags),
    ensures
        flags[0] == norm(inner, TableView::empty(), defs, "START"@, depth).0.shift(
            1,
        ).nullable_under(flags),
{
    let rules = assemble(GrammarView::OneOrMore(Box::new(inner)), defs, depth);
    let nodes = nodes_of(rules);
    let sub = norm(inner, TableView::empty(), defs, "START"@, depth);
    let e = sub.2.rules.len() as int;
    let whole = norm(
        GrammarView::OneOrMore(Box::new(inner)),
        TableView::empty(),
        defs,
        "START"@,
        depth,
    );
    let pair = seq![NormalizedView::Reference(e), NormalizedView::Reference(e + 1)];
    assert(whole.0 == NormalizedView::Sequence(pair));
    assert(whole.2.rules[e].node == sub.0);
    assert(whole.2.rules[e + 1].node == repetition(NormalizedView::Reference(e), e + 1));
    assert(rules[e + 1].node == sub.0.shift(1));
    assert(rules[e + 2].node == repetition(NormalizedView::Reference(e), e + 1).shift(1));
    lemma_repetition_nullable(NormalizedView::Reference(e), e + 1, 1, flags);
    assert(nodes[e + 2].nullable_under(flags));
    assert(flags[e + 2]);
    lemma_shift_sequence(pair, 1);
    let moved = shifted(pair, 1);
    assert(moved[0] == NormalizedView::Reference(e + 1));
    assert(moved[1] == NormalizedView::Reference(e + 2));
    assert(rules[0].node == NormalizedView::Sequence(moved));
    lemma_sequence_nullable(moved, flags);
    assert(nodes[e + 1].nullable_under(flags) == flags[e + 1]);
    if flags[e + 1] {
        assert forall|k: int| 0 <= k < moved.len() implies (#[trigger] moved[k]).nullable_under(
            flags,
        ) by {
            if k == 0 {
            } else {
                assert(k == 1);
            }
        }
    } else {
        assert(!moved[0].nullable_under(flags));
    }
    assert(nodes[0].nullable_under(flags) == flags[e + 1]);
}

/// Moving the references of an expression keeps it free of placeholders, and
/// moves the bound below which its references lie.
pub proof fn lemma_shift_keeps(node: NormalizedView, offset: int, bound: int)
    requires
        offset >= 0,
    ensures
        node.complete() ==> node.shift(offset).complete(),
        node.refs_below(bound) ==> node.shift(offset).refs_below(bound + offset),
    decreases node,
{
    match node {
        NormalizedView::Choice(nodes) => {
            lemma_shift_choice(nodes, offset);
            let moved = shifted(nodes, offset);
            assert forall|i: int| 0 <= i < moved.len() implies (nodes[i].complete() ==> (
            #[trigger] moved[i]).complete()) && (nodes[i].refs_below(bound) ==> moved[i].refs_below(
                bound + offset,
            )) by {
                lemma_shift_keeps(nodes[i], offset, bound);
            }
        },
        NormalizedView::Sequence(nodes) => {
            lemma_shift_sequence(nodes, offset);
            let moved = shifted(nodes, offset);
            assert forall|i: int| 0 <= i < moved.len() implies (nodes[i].complete() ==> (
            #[trigger] moved[i]).complete()) && (nodes[i].refs_below(bound) ==> moved[i].refs_below(
                bound + offset,
            )) by {
                lemma_shift_keeps(nodes[i], offset, bound);
            }
        },
        _ => {},
    }
}

/// A table that was assembled is finished: no rule holds a placeholder, and
/// every reference is the index of a rule of the table.
pub proof fn lemma_assemble_finished(
    root: GrammarView,
    defs: Map<usize, GrammarView>,
    depth: nat,
    index: int,
)
    requires
        0 <= index < assemble(root, defs, depth).len(),
    ensures
        assemble(root, defs, depth)[index].node.complete(),
        assemble(root, defs, depth)[index].node.refs_below(
            assemble(root, defs, depth).len() as int,
        ),
{
    let rules = assemble(root, defs, depth);
    let result = norm(root, TableView::empty(), defs, "START"@, depth);
    lemma_norm_table(root, TableView::empty(), defs, "START"@, depth);
    let count = result.2.rules.len() as int;
    assert(rules.len() == count + 1);
    if index == 0 {
        lemma_shift_keeps(result.0, 1, count);
    } else {
        let rule = result.2.rules[index - 1];
        assert(rule.node.complete());
        assert(rule.node.refs_below(count));
        lemma_shift_keeps(rule.node, 1, count);
        assert(rules[index].node == rule.node.shift(1));
    }
}

/// A grammar whose start is `some(x)` and that was compiled has a start that
/// is not nullable, whatever `x` is: were the item nullable, the rule of the
/// repetition could call itself without consuming, and the grammar would have
/// been refused.
pub proof fn lemma_some_not_nullable(
    inner: GrammarView,
    defs: Map<usize, GrammarView>,
    depth: nat,
    flags: Seq<bool>,
)
    requires
        stable(nodes_of(assemble(GrammarView::OneOrMore(Box::new(inner)), defs, depth)), flags),
        acyclic(
            call_graph(
                nodes_of(assemble(GrammarView::OneOrMore(Box::new(inner)), defs, depth)),
                flags,
            ),
        ),
    ensures
        !flags[0],
{
    let rules = assemble(GrammarView::OneOrMore(Box::new(inner)), defs, depth);
    let nodes = nodes_of(rules);
    let graph = call_graph(nodes, flags);
    let sub = norm(inner, TableView::empty(), defs, "START"@, depth);
    let e = sub.2.rules.len() as int;
    lemma_some_nullable(inner, defs, depth, flags);
    let whole = norm(
        GrammarView::OneOrMore(Box::new(inner)),
        TableView::empty(),
        defs,
        "START"@,
        depth,
    );
    assert(whole.2.rules[e].node == sub.0);
    assert(rules[e + 1].node == sub.0.shift(1));
    assert(nodes[e + 1].nullable_under(flags) == flags[e + 1]);
    if flags[e + 1] {
        let body = repetition(NormalizedView::Reference(e), e + 1);
        assert(whole.2.rules[e + 1].node == body);
        assert(rules[e + 2].node == body.shift(1));
        let inner_parts = seq![NormalizedView::Reference(e), NormalizedView::Reference(e + 1)];
        let outer_parts = seq![NormalizedView::Sequence(inner_parts), epsilon()];
        lemma_shift_choice(outer_parts, 1);
        let outer_moved = shifted(outer_parts, 1);
        lemma_shift_sequence(inner_parts, 1);
        let inner_moved = shifted(inner_parts, 1);
        assert(outer_moved[0] == NormalizedView::Sequence(inner_moved));
        assert(inner_moved[0] == NormalizedView::Reference(e + 1));
        assert(inner_moved[1] == NormalizedView::Reference(e + 2));
        assert(open_until(inner_moved, flags, 1)) by {
            assert forall|m: int| 0 <= m < 1 && m < inner_moved.len() implies (
            #[trigger] inner_moved[m]).nullable_under(flags) by {
                assert(m == 0);
            }
        }
        assert(inner_moved[1].calls(flags).contains(e + 2));
        lemma_sequence_calls(inner_moved, flags, e + 2);
        assert(outer_moved[0].calls(flags).contains(e + 2));
        lemma_choice_calls(outer_moved, flags, e + 2);
        assert(nodes[e + 2].calls(flags).contains(e + 2));
        assert(edge(graph, e + 2, e + 2));
        let path = seq![e + 2, e + 2];
        assert(is_path(graph, path) && path[0] == e + 2 && path.last() == e + 2);
        assert(on_cycle(graph, e + 2));
    }
}

/// What a grammar is compiled to is the normal form of what it is compiled
/// from: before references are moved up by one for `START`, the body of
/// `START` mirrors the start expression, and the rule of every handle mirrors
/// the handle's definition, or is the empty choice where the handle has none.
pub proof fn lemma_compile_mirrors(root: GrammarView, defs: Definitions)
    requires
        defs.wf(),
    ensures
        crate::normalize::mirrors(
            root,
            norm(root, TableView::empty(), defs.map(), "START"@, defs.count()).0,
            norm(root, TableView::empty(), defs.map(), "START"@, defs.count()).2,
        ),
        crate::normalize::table_mirrors(
            norm(root, TableView::empty(), defs.map(), "START"@, defs.count()).2,
            defs.map(),
        ),
        forall|index: int|
            0 <= index < norm(
                root,
                TableView::empty(),
                defs.map(),
                "START"@,
                defs.count(),
            ).2.rules.len() ==> !((#[trigger] norm(
                root,
                TableView::empty(),
                defs.map(),
                "START"@,
                defs.count(),
            ).2.rules[index]).node is Placeholder),
{
    defs.lemma_count();
    let table = TableView::empty();
    assert(crate::normalize::unmet(table, defs.map()) =~= defs.map().dom());
    crate::normalize::lemma_norm_mirrors(root, table, defs.map(), "START"@, defs.count());
    lemma_norm_table(root, table, defs.map(), "START"@, defs.count());
}

} // verus!
