//! Grammar expressions: what an author writes, and the normal form that a
//! rule table holds.

use vstd::prelude::*;
use vstd::string::StringExecFns;

use crate::words::Matcher;
use crate::words::Pattern;
use crate::words::PatternView;

verus! {

/// A grammar expression as its author writes it. A rule is referred to by the
/// handle under which it is defined, together with its name.
#[derive(Debug)]
pub enum GrammarNode {
    Terminal(Pattern),
    Choice(Vec<GrammarNode>),
    Sequence(Vec<GrammarNode>),
    Reference(usize, String),
    Optional(Box<GrammarNode>),
    OneOrMore(Box<GrammarNode>),
    Many(Box<GrammarNode>),
}

/// What a grammar expression is, with sequences in place of vectors.
pub enum GrammarView {
    Terminal(PatternView),
    Choice(Seq<GrammarView>),
    Sequence(Seq<GrammarView>),
    Reference(usize, Seq<char>),
    Optional(Box<GrammarView>),
    OneOrMore(Box<GrammarView>),
    Many(Box<GrammarView>),
}

/// A grammar expression in normal form: references are indices into the rule
/// table, and repetition and optionality are gone.
#[derive(Debug)]
pub enum NormalizedNode {
    Terminal(Pattern),
    Choice(Vec<NormalizedNode>),
    Sequence(Vec<NormalizedNode>),
    Reference(usize),
    /// Stands in a rule's slot while the rule is being normalized.
    Placeholder,
}

/// What a normalized expression is, with sequences in place of vectors.
pub enum NormalizedView {
    Terminal(PatternView),
    Choice(Seq<NormalizedView>),
    Sequence(Seq<NormalizedView>),
    Reference(int),
    Placeholder,
}

impl View for GrammarNode {
    type V = GrammarView;

    open spec fn view(&self) -> GrammarView {
        self.model()
    }
}

impl GrammarNode {
    /// What the expression is, with sequences in place of vectors.
    pub open spec fn model(self) -> GrammarView
        decreases self,
    {
        match self {
            GrammarNode::Terminal(m) => GrammarView::Terminal(m@),
            GrammarNode::Choice(nodes) => GrammarView::Choice(grammar_views(nodes@)),
            GrammarNode::Sequence(nodes) => GrammarView::Sequence(grammar_views(nodes@)),
            GrammarNode::Reference(handle, name) => GrammarView::Reference(handle, name@),
            GrammarNode::Optional(node) => GrammarView::Optional(Box::new((*node).model())),
            GrammarNode::OneOrMore(node) => GrammarView::OneOrMore(Box::new((*node).model())),
            GrammarNode::Many(node) => GrammarView::Many(Box::new((*node).model())),
        }
    }
}

/// The views of a sequence of grammar expressions.
pub open spec fn grammar_views(nodes: Seq<GrammarNode>) -> Seq<GrammarView>
    decreases nodes,
{
    Seq::new(
        nodes.len(),
        |i: int|
            if 0 <= i < nodes.len() {
                nodes[i].model()
            } else {
                GrammarView::Choice(Seq::empty())
            },
    )
}

impl View for NormalizedNode {
    type V = NormalizedView;

    open spec fn view(&self) -> NormalizedView {
        self.model()
    }
}

impl NormalizedNode {
    /// What the expression is, with sequences in place of vectors.
    pub open spec fn model(self) -> NormalizedView
        decreases self,
    {
        match self {
            NormalizedNode::Terminal(m) => NormalizedView::Terminal(m@),
            NormalizedNode::Choice(nodes) => NormalizedView::Choice(normalized_views(nodes@)),
            NormalizedNode::Sequence(nodes) => NormalizedView::Sequence(normalized_views(nodes@)),
            NormalizedNode::Reference(index) => NormalizedView::Reference(index as int),
            NormalizedNode::Placeholder => NormalizedView::Placeholder,
        }
    }
}

/// The views of a sequence of normalized expressions.
pub open spec fn normalized_views(nodes: Seq<NormalizedNode>) -> Seq<NormalizedView>
    decreases nodes,
{
    Seq::new(
        nodes.len(),
        |i: int|
            if 0 <= i < nodes.len() {
                nodes[i].model()
            } else {
                NormalizedView::Placeholder
            },
    )
}

/// The views of a sequence of expressions are the views of its members.
pub proof fn lemma_grammar_views(nodes: Seq<GrammarNode>)
    ensures
        grammar_views(nodes).len() == nodes.len(),
        forall|i: int| 0 <= i < nodes.len() ==> (#[trigger] grammar_views(nodes)[i]) == nodes[i]@,
{
    reveal_with_fuel(grammar_views, 2);
}

/// The views of a sequence of normalized expressions are the views of its
/// members.
pub proof fn lemma_normalized_views(nodes: Seq<NormalizedNode>)
    ensures
        normalized_views(nodes).len() == nodes.len(),
        forall|i: int| 0 <= i < nodes.len() ==> (#[trigger] normalized_views(nodes)[i]) == nodes[i]@,
{
    reveal_with_fuel(normalized_views, 2);
}

impl GrammarNode {
    pub fn is_reference(&self) -> (b: bool)
        ensures
            b == (self@ is Reference),
    {
        matches!(self, GrammarNode::Reference(_, _))
    }
}

impl GrammarView {
    /// `self` and then `rhs`, as one sequence: where either is a sequence
    /// already, its parts are taken over.
    pub open spec fn join(self, rhs: GrammarView) -> GrammarView {
        match (self, rhs) {
            (GrammarView::Sequence(left), GrammarView::Sequence(right)) => GrammarView::Sequence(
                left + right,
            ),
            (GrammarView::Sequence(left), right) => GrammarView::Sequence(left.push(right)),
            (left, GrammarView::Sequence(right)) => GrammarView::Sequence(seq![left] + right),
            (left, right) => GrammarView::Sequence(seq![left, right]),
        }
    }

    /// `self` or `rhs`, as one choice: where either is a choice already, its
    /// branches are taken over.
    pub open spec fn either(self, rhs: GrammarView) -> GrammarView {
        match (self, rhs) {
            (GrammarView::Choice(left), GrammarView::Choice(right)) => GrammarView::Choice(
                left + right,
            ),
            (GrammarView::Choice(left), right) => GrammarView::Choice(left.push(right)),
            (left, GrammarView::Choice(right)) => GrammarView::Choice(seq![left] + right),
            (left, right) => GrammarView::Choice(seq![left, right]),
        }
    }
}

/// A terminal that matches what `matcher` matches.
pub fn t<M: Matcher>(matcher: M) -> (node: GrammarNode)
    ensures
        node@ == GrammarView::Terminal(matcher.pattern()),
{
    GrammarNode::Terminal(matcher.to_pattern())
}

/// A reference to the rule defined under `rule`, named `name`.
pub fn r(rule: usize, name: &str) -> (node: GrammarNode)
    ensures
        node@ == GrammarView::Reference(rule, name@),
{
    GrammarNode::Reference(rule, String::from_str(name))
}

/// One of `nodes`, tried in order.
pub fn choice(nodes: Vec<GrammarNode>) -> (node: GrammarNode)
    ensures
        node@ == GrammarView::Choice(grammar_views(nodes@)),
{
    GrammarNode::Choice(nodes)
}

/// All of `nodes`, one after another.
pub fn seq(nodes: Vec<GrammarNode>) -> (node: GrammarNode)
    ensures
        node@ == GrammarView::Sequence(grammar_views(nodes@)),
{
    GrammarNode::Sequence(nodes)
}

/// `node` or nothing.
pub fn optional(node: GrammarNode) -> (out: GrammarNode)
    ensures
        out@ == GrammarView::Optional(Box::new(node@)),
{
    GrammarNode::Optional(Box::new(node))
}

/// `node` once or more.
pub fn some(node: GrammarNode) -> (out: GrammarNode)
    ensures
        out@ == GrammarView::OneOrMore(Box::new(node@)),
{
    GrammarNode::OneOrMore(Box::new(node))
}

/// `node` any number of times.
pub fn many(node: GrammarNode) -> (out: GrammarNode)
    ensures
        out@ == GrammarView::Many(Box::new(node@)),
{
    GrammarNode::Many(Box::new(node))
}

impl std::ops::Add for GrammarNode {
    type Output = GrammarNode;

    /// `self` and then `rhs`, flattening adjacent sequences.
    fn add(self, rhs: GrammarNode) -> (node: GrammarNode)
        ensures
            node@ == self@.join(rhs@),
    {
        match (self, rhs) {
            (GrammarNode::Sequence(mut left), GrammarNode::Sequence(mut right)) => {
                let ghost first = left@;
                let ghost second = right@;
                left.append(&mut right);
                proof {
                    lemma_grammar_views(first);
                    lemma_grammar_views(second);
                    lemma_grammar_views(left@);
                    assert(grammar_views(left@) =~= grammar_views(first) + grammar_views(second));
                }
                GrammarNode::Sequence(left)
            },
            (GrammarNode::Sequence(mut left), right) => {
                let ghost first = left@;
                left.push(right);
                proof {
                    lemma_grammar_views(first);
                    lemma_grammar_views(left@);
                    assert(grammar_views(left@) =~= grammar_views(first).push(right@));
                }
                GrammarNode::Sequence(left)
            },
            (left, GrammarNode::Sequence(mut right)) => {
                let ghost second = right@;
                right.insert(0, left);
                proof {
                    lemma_grammar_views(second);
                    lemma_grammar_views(right@);
                    assert(grammar_views(right@) =~= seq![left@] + grammar_views(second));
                }
                GrammarNode::Sequence(right)
            },
            (left, right) => {
                let mut nodes: Vec<GrammarNode> = Vec::new();
                nodes.push(left);
                nodes.push(right);
                proof {
                    lemma_grammar_views(nodes@);
                    assert(grammar_views(nodes@) =~= seq![left@, right@]);
                }
                GrammarNode::Sequence(nodes)
            },
        }
    }
}

impl vstd::std_specs::ops::AddSpecImpl for GrammarNode {
    open spec fn obeys_add_spec() -> bool {
        false
    }

    open spec fn add_req(self, rhs: GrammarNode) -> bool {
        true
    }

    open spec fn add_spec(self, rhs: GrammarNode) -> GrammarNode {
        self
    }
}

impl vstd::std_specs::ops::BitOrSpecImpl for GrammarNode {
    open spec fn obeys_bitor_spec() -> bool {
        false
    }

    open spec fn bitor_req(self, rhs: GrammarNode) -> bool {
        true
    }

    open spec fn bitor_spec(self, rhs: GrammarNode) -> GrammarNode {
        self
    }
}

impl std::ops::BitOr for GrammarNode {
    type Output = GrammarNode;

    /// `self` or `rhs`, flattening adjacent choices.
    fn bitor(self, rhs: GrammarNode) -> (node: GrammarNode)
        ensures
            node@ == self@.either(rhs@),
    {
        match (self, rhs) {
            (GrammarNode::Choice(mut left), GrammarNode::Choice(mut right)) => {
                let ghost first = left@;
                let ghost second = right@;
                left.append(&mut right);
                proof {
                    lemma_grammar_views(first);
                    lemma_grammar_views(second);
                    lemma_grammar_views(left@);
                    assert(grammar_views(left@) =~= grammar_views(first) + grammar_views(second));
                }
                GrammarNode::Choice(left)
            },
            (GrammarNode::Choice(mut left), right) => {
                let ghost first = left@;
                left.push(right);
                proof {
                    lemma_grammar_views(first);
                    lemma_grammar_views(left@);
                    assert(grammar_views(left@) =~= grammar_views(first).push(right@));
                }
                GrammarNode::Choice(left)
            },
            (left, GrammarNode::Choice(mut right)) => {
                let ghost second = right@;
                right.insert(0, left);
                proof {
                    lemma_grammar_views(second);
                    lemma_grammar_views(right@);
                    assert(grammar_views(right@) =~= seq![left@] + grammar_views(second));
                }
                GrammarNode::Choice(right)
            },
            (left, right) => {
                let mut nodes: Vec<GrammarNode> = Vec::new();
                nodes.push(left);
                nodes.push(right);
                proof {
                    lemma_grammar_views(nodes@);
                    assert(grammar_views(nodes@) =~= seq![left@, right@]);
                }
                GrammarNode::Choice(nodes)
            },
        }
    }
}

impl NormalizedView {
    /// Whether every reference in the expression is an index below `bound`.
    pub open spec fn refs_below(self, bound: int) -> bool
        decreases self,
    {
        match self {
            NormalizedView::Choice(nodes) => forall|i: int|
                0 <= i < nodes.len() ==> (#[trigger] nodes[i]).refs_below(bound),
            NormalizedView::Sequence(nodes) => forall|i: int|
                0 <= i < nodes.len() ==> (#[trigger] nodes[i]).refs_below(bound),
            NormalizedView::Reference(index) => 0 <= index < bound,
            _ => true,
        }
    }

    /// Whether the expression holds no placeholder.
    pub open spec fn complete(self) -> bool
        decreases self,
    {
        match self {
            NormalizedView::Choice(nodes) => forall|i: int|
                0 <= i < nodes.len() ==> (#[trigger] nodes[i]).complete(),
            NormalizedView::Sequence(nodes) => forall|i: int|
                0 <= i < nodes.len() ==> (#[trigger] nodes[i]).complete(),
            NormalizedView::Placeholder => false,
            _ => true,
        }
    }

    /// The expression with `offset` added to every reference.
    pub open spec fn shift(self, offset: int) -> NormalizedView
        decreases self,
    {
        match self {
            NormalizedView::Choice(nodes) => NormalizedView::Choice(
                Seq::new(
                    nodes.len(),
                    |i: int|
                        if 0 <= i < nodes.len() {
                            nodes[i].shift(offset)
                        } else {
                            NormalizedView::Placeholder
                        },
                ),
            ),
            NormalizedView::Sequence(nodes) => NormalizedView::Sequence(
                Seq::new(
                    nodes.len(),
                    |i: int|
                        if 0 <= i < nodes.len() {
                            nodes[i].shift(offset)
                        } else {
                            NormalizedView::Placeholder
                        },
                ),
            ),
            NormalizedView::Reference(index) => NormalizedView::Reference(index + offset),
            other => other,
        }
    }
}

} // verus!
