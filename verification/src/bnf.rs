//! The textual form of a rule table, for diagnostics: one line per rule.

use vstd::prelude::*;
use vstd::string::StringExecFns;

use crate::grammar::Rule;
use crate::grammar::RuleView;
use crate::grammar::rule_views;
use crate::grammar_dsl::NormalizedNode;
use crate::grammar_dsl::NormalizedView;
use crate::grammar_dsl::lemma_normalized_views;
use crate::grammar_dsl::normalized_views;

verus! {

/// The names of the rules.
pub open spec fn names_of(rules: Seq<RuleView>) -> Seq<Seq<char>> {
    Seq::new(rules.len(), |i: int| rules[i].name)
}

/// Whether a part is written in parentheses: a choice inside a sequence, and
/// a sequence inside a choice.
pub open spec fn in_parens(part: NormalizedView, in_sequence: bool) -> bool {
    if in_sequence {
        part is Choice
    } else {
        part is Sequence
    }
}

/// What stands between two parts: a space in a sequence, a bar in a choice.
pub open spec fn separator(in_sequence: bool) -> Seq<char> {
    if in_sequence {
        " "@
    } else {
        " | "@
    }
}

impl NormalizedView {
    /// The text of the expression: a terminal as its matcher shows itself, a
    /// reference as the name of its rule, the parts of a sequence with spaces
    /// between them, the branches of a choice with bars between them.
    pub open spec fn bnf(self, names: Seq<Seq<char>>) -> Seq<char>
        decreases self, 0nat,
    {
        match self {
            NormalizedView::Terminal(m) => m.display_spec(),
            NormalizedView::Reference(index) => if 0 <= index < names.len() {
                names[index]
            } else {
                "<unknown>"@
            },
            NormalizedView::Placeholder => "<placeholder>"@,
            NormalizedView::Sequence(parts) => bnf_parts(parts, parts.len(), names, true),
            NormalizedView::Choice(parts) => bnf_parts(parts, parts.len(), names, false),
        }
    }
}

/// The text of the first `count` of `parts`.
pub open spec fn bnf_parts(
    parts: Seq<NormalizedView>,
    count: nat,
    names: Seq<Seq<char>>,
    in_sequence: bool,
) -> Seq<char>
    decreases parts, count,
{
    if count == 0 || count > parts.len() {
        Seq::empty()
    } else {
        let part = parts[count - 1];
        let before = bnf_parts(parts, (count - 1) as nat, names, in_sequence);
        let between = if count > 1 {
            separator(in_sequence)
        } else {
            Seq::empty()
        };
        let text = if in_parens(part, in_sequence) {
            "("@ + part.bnf(names) + ")"@
        } else {
            part.bnf(names)
        };
        before + between + text
    }
}

/// The text of the first `count` rules: for each a line of its name, `::=`
/// and its body, with a line break between two lines.
pub open spec fn bnf_rules(rules: Seq<RuleView>, count: nat) -> Seq<char>
    decreases count,
{
    if count == 0 || count > rules.len() {
        Seq::empty()
    } else {
        let rule = rules[count - 1];
        let before = bnf_rules(rules, (count - 1) as nat);
        let between = if count > 1 {
            "\n"@
        } else {
            Seq::empty()
        };
        before + between + rule.name + " ::= "@ + rule.node.bnf(names_of(rules))
    }
}

/// Writes the text of `node` behind `out`.
pub fn write_node(node: &NormalizedNode, rules: &Vec<Rule>, out: &mut String)
    ensures
        final(out)@ == old(out)@ + node@.bnf(names_of(rule_views(rules@))),
    decreases node, 0nat,
{
    let ghost names = names_of(rule_views(rules@));
    let ghost before = out@;
    match node {
        NormalizedNode::Terminal(m) => {
            let text = m.display();
            out.append(text.as_str());
        },
        NormalizedNode::Reference(index) => {
            if *index < rules.len() {
                out.append(rules[*index].name.as_str());
                assert(names[*index as int] == rules@[*index as int].name@);
            } else {
                out.append("<unknown>");
            }
        },
        NormalizedNode::Placeholder => {
            out.append("<placeholder>");
        },
        NormalizedNode::Sequence(parts) => {
            proof {
                lemma_bnf_sequence(normalized_views(parts@), names);
            }
            write_parts(parts, rules, true, out);
        },
        NormalizedNode::Choice(parts) => {
            proof {
                lemma_bnf_choice(normalized_views(parts@), names);
            }
            write_parts(parts, rules, false, out);
        },
    }
}

/// The text of a sequence is that of all its parts.
pub proof fn lemma_bnf_sequence(parts: Seq<NormalizedView>, names: Seq<Seq<char>>)
    ensures
        NormalizedView::Sequence(parts).bnf(names) == bnf_parts(parts, parts.len(), names, true),
{
    let node = NormalizedView::Sequence(parts);
    match node {
        NormalizedView::Sequence(inner) => {
            assert(inner == parts);
        },
        _ => {},
    }
}

/// The text of a choice is that of all its branches.
pub proof fn lemma_bnf_choice(parts: Seq<NormalizedView>, names: Seq<Seq<char>>)
    ensures
        NormalizedView::Choice(parts).bnf(names) == bnf_parts(parts, parts.len(), names, false),
{
    let node = NormalizedView::Choice(parts);
    match node {
        NormalizedView::Choice(inner) => {
            assert(inner == parts);
        },
        _ => {},
    }
}

/// Whether the expression is a choice.
fn is_choice(node: &NormalizedNode) -> (b: bool)
    ensures
        b == (node@ is Choice),
{
    matches!(node, NormalizedNode::Choice(_))
}

/// Whether the expression is a sequence.
fn is_sequence(node: &NormalizedNode) -> (b: bool)
    ensures
        b == (node@ is Sequence),
{
    matches!(node, NormalizedNode::Sequence(_))
}

/// Writes the text of `parts` behind `out`.
fn write_parts(parts: &Vec<NormalizedNode>, rules: &Vec<Rule>, in_sequence: bool, out: &mut String)
    ensures
        final(out)@ == old(out)@ + bnf_parts(
            normalized_views(parts@),
            parts@.len(),
            names_of(rule_views(rules@)),
            in_sequence,
        ),
    decreases parts, 1nat,
{
    let ghost names = names_of(rule_views(rules@));
    let ghost views = normalized_views(parts@);
    let ghost before = out@;
    proof {
        lemma_normalized_views(parts@);
        assert(before + bnf_parts(views, 0, names, in_sequence) =~= before);
    }
    let mut i: usize = 0;
    while i < parts.len()
        invariant
            i <= parts.len(),
            names == names_of(rule_views(rules@)),
            views == normalized_views(parts@),
            views.len() == parts@.len(),
            forall|k: int| 0 <= k < parts@.len() ==> (#[trigger] views[k]) == parts@[k]@,
            out@ == before + bnf_parts(views, i as nat, names, in_sequence),
        decreases parts.len() - i,
    {
        let ghost done = bnf_parts(views, i as nat, names, in_sequence);
        let part = &parts[i];
        if i > 0 {
            if in_sequence {
                out.append(" ");
            } else {
                out.append(" | ");
            }
        }
        let wrap = if in_sequence {
            is_choice(part)
        } else {
            is_sequence(part)
        };
        if wrap {
            out.append("(");
            write_node(part, rules, out);
            out.append(")");
        } else {
            write_node(part, rules, out);
        }
        proof {
            let between = if i > 0 {
                separator(in_sequence)
            } else {
                Seq::empty()
            };
            let text = if in_parens(views[i as int], in_sequence) {
                "("@ + views[i as int].bnf(names) + ")"@
            } else {
                views[i as int].bnf(names)
            };
            assert(bnf_parts(views, (i + 1) as nat, names, in_sequence) == done + between + text);
            assert(out@ =~= before + (done + between + text));
        }
        i = i + 1;
    }
}

/// The text of the rule table: one line per rule.
pub fn write_rules(rules: &Vec<Rule>) -> (text: String)
    ensures
        text@ == bnf_rules(rule_views(rules@), rules@.len()),
{
    let ghost views = rule_views(rules@);
    let mut text = String::new();
    let mut i: usize = 0;
    while i < rules.len()
        invariant
            i <= rules.len(),
            views == rule_views(rules@),
            text@ == bnf_rules(views, i as nat),
        decreases rules.len() - i,
    {
        let ghost done = text@;
        if i > 0 {
            text.append("\n");
        }
        text.append(rules[i].name.as_str());
        text.append(" ::= ");
        write_node(&rules[i].node, rules, &mut text);
        proof {
            let rule = views[i as int];
            let between = if i > 0 {
                "\n"@
            } else {
                Seq::empty()
            };
            assert(rule == rules@[i as int]@);
            assert(bnf_rules(views, (i + 1) as nat) == done + between + rule.name + " ::= "@
                + rule.node.bnf(names_of(views)));
            assert(text@ =~= done + between + rule.name + " ::= "@ + rule.node.bnf(names_of(views)));
        }
        i = i + 1;
    }
    text
}

} // verus!
