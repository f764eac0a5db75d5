use incparse::grammar::Definitions;
use incparse::grammar::EvaluationError;
use incparse::grammar::Grammar;
use incparse::grammar_dsl::choice;
use incparse::grammar_dsl::many;
use incparse::grammar_dsl::r;
use incparse::grammar_dsl::some;
use incparse::grammar_dsl::t;
use incparse::grammar_dsl::GrammarNode;

const A: usize = 10;
const B: usize = 20;
const C: usize = 30;

fn a() -> GrammarNode {
    t("a") + r(B, "b")
}

fn b() -> GrammarNode {
    t("b") + r(C, "c")
}

fn c() -> GrammarNode {
    t("c") + r(A, "a")
}

#[test]
fn test_normalize_terminal() {
    let mut defs = Definitions::new();
    defs.define(A, a());
    defs.define(B, b());
    defs.define(C, c());
    let grammar = Grammar::compile(&a(), &defs).unwrap();
    assert_eq!(grammar.len(), 4);
    assert_eq!(grammar.rule(0).name, "START");
    assert_eq!(grammar.rule(1).name, "b");
    assert_eq!(grammar.rule(2).name, "c");
    assert_eq!(grammar.rule(3).name, "a");
    assert_eq!(grammar.rule_index(B), Some(1));
    assert_eq!(grammar.rule_index(C), Some(2));
    assert_eq!(grammar.rule_index(A), Some(3));
    assert_eq!(grammar.rule_index(99), None);
}

#[test]
fn self_reference_as_a_choice_branch_is_undecidable() {
    let mut defs = Definitions::new();
    defs.define(A, r(A, "A") | t("a"));
    match Grammar::compile(&r(A, "A"), &defs) {
        Err(EvaluationError::UndecidableRule(name)) => assert_eq!(name, "A"),
        _ => panic!("the grammar must be refused"),
    }
}

#[test]
fn self_reference_behind_a_consuming_terminal_compiles() {
    let mut defs = Definitions::new();
    defs.define(A, choice(vec![t("a") + r(A, "A"), incparse::grammar_dsl::seq(vec![])]));
    let grammar = Grammar::compile(&r(A, "A"), &defs).unwrap();
    let at = grammar.rule_index(A).unwrap();
    assert!(grammar.is_nullable(at));
    assert!(grammar.rule(at).is_recursive);
}

#[test]
fn right_recursive_root_gives_two_rules() {
    let mut defs = Definitions::new();
    defs.define(A, (t("a") + r(A, "Root")) | t("b"));
    let grammar = Grammar::compile(&r(A, "Root"), &defs).unwrap();
    assert_eq!(grammar.len(), 2);
    assert_eq!(grammar.rule(0).name, "START");
    assert_eq!(grammar.rule(1).name, "Root");
    assert!(!grammar.is_nullable(1));
    assert!(!grammar.is_nullable(0));
}

#[test]
fn many_is_nullable_and_some_follows_its_item() {
    let defs = Definitions::new();
    let grammar = Grammar::compile(&many(t("x")), &defs).unwrap();
    assert!(grammar.is_nullable(0));
    let grammar = Grammar::compile(&some(t("x")), &defs).unwrap();
    assert!(!grammar.is_nullable(0));
    assert_eq!(grammar.len(), 3);
    assert_eq!(grammar.rule(1).name, "START_item");
    assert_eq!(grammar.rule(2).name, "START_many");
}

#[test]
fn mutual_recursion_without_consumption_is_undecidable() {
    let mut defs = Definitions::new();
    defs.define(A, r(B, "B") + t("a"));
    defs.define(B, many(t("x")) + r(A, "A"));
    assert!(Grammar::compile(&r(A, "A"), &defs).is_err());
}

#[test]
fn a_rule_without_a_definition_matches_nothing() {
    let defs = Definitions::new();
    let grammar = Grammar::compile(&r(A, "A"), &defs).unwrap();
    assert_eq!(grammar.len(), 2);
    assert!(!grammar.is_nullable(1));
}

#[test]
fn the_rule_table_is_shown_one_rule_per_line() {
    let mut defs = Definitions::new();
    defs.define(A, (t("a") + r(A, "Root")) | t("b"));
    let grammar = Grammar::compile(&r(A, "Root"), &defs).unwrap();
    assert_eq!(grammar.to_bnf(), "START ::= Root\nRoot ::= (\"a\" Root) | \"b\"");
}

#[test]
fn a_choice_inside_a_sequence_is_shown_in_parentheses() {
    let defs = Definitions::new();
    let grammar = Grammar::compile(&(t("a") + (t("b") | t('c'))), &defs).unwrap();
    assert_eq!(grammar.to_bnf(), "START ::= \"a\" (\"b\" | 'c')");
}

#[test]
fn repetitions_are_shown_as_rules_of_their_own() {
    let defs = Definitions::new();
    let grammar = Grammar::compile(&many(t("x")), &defs).unwrap();
    assert_eq!(
        grammar.to_bnf(),
        "START ::= START_many\nSTART_many ::= (\"x\" START_many) | ()"
    );
}

#[test]
fn the_same_handle_gets_the_same_index_on_every_path() {
    let mut defs = Definitions::new();
    defs.define(A, r(B, "B") + r(C, "C"));
    defs.define(B, t("b") + r(C, "C"));
    defs.define(C, t("c"));
    let grammar = Grammar::compile(&r(A, "A"), &defs).unwrap();
    let c = grammar.rule_index(C).unwrap();
    assert_eq!(
        grammar.to_bnf(),
        "START ::= A\nA ::= B C\nB ::= \"b\" C\nC ::= \"c\""
    );
    assert_eq!(c, 3);
    assert_eq!(grammar.len(), 4);
}

#[test]
fn a_repetition_of_a_nullable_item_is_undecidable() {
    let defs = Definitions::new();
    match Grammar::compile(&some(t("")), &defs) {
        Err(EvaluationError::UndecidableRule(name)) => assert_eq!(name, "START_many"),
        _ => panic!("the grammar must be refused"),
    }
    assert!(Grammar::compile(&many(t("")), &defs).is_err());
    assert!(Grammar::compile(&many(many(t("x"))), &defs).is_err());
}

#[test]
fn an_optional_expression_is_nullable() {
    let defs = Definitions::new();
    let grammar = Grammar::compile(&incparse::grammar_dsl::optional(t("x")), &defs).unwrap();
    assert!(grammar.is_nullable(0));
    assert_eq!(grammar.to_bnf(), "START ::= \"x\" | ()");
}

#[test]
fn adjacent_sequences_and_choices_are_flattened() {
    match (t("a") + t("b")) + (t("c") + t("d")) {
        GrammarNode::Sequence(parts) => assert_eq!(parts.len(), 4),
        _ => panic!("a sequence is expected"),
    }
    match t("a") + (t("b") + t("c")) {
        GrammarNode::Sequence(parts) => {
            assert_eq!(parts.len(), 3);
            assert!(matches!(&parts[0], GrammarNode::Terminal(_)));
        }
        _ => panic!("a sequence is expected"),
    }
    match (t("a") | t("b")) | t("c") {
        GrammarNode::Choice(parts) => assert_eq!(parts.len(), 3),
        _ => panic!("a choice is expected"),
    }
    match t("a") | (t("b") | t("c")) | (t("d") | t("e")) {
        GrammarNode::Choice(parts) => assert_eq!(parts.len(), 5),
        _ => panic!("a choice is expected"),
    }
    match (t("a") | t("b")) + t("c") {
        GrammarNode::Sequence(parts) => {
            assert_eq!(parts.len(), 2);
            assert!(matches!(&parts[0], GrammarNode::Choice(_)));
        }
        _ => panic!("a sequence is expected"),
    }
    assert!(r(1, "one").is_reference());
    assert!(!t("a").is_reference());
}

#[test]
fn a_later_definition_replaces_an_earlier_one() {
    let mut defs = Definitions::new();
    defs.define(A, t("a"));
    defs.define(B, t("b"));
    defs.define(A, t("c"));
    assert_eq!(defs.len(), 2);
    assert!(matches!(defs.get(A), Some(GrammarNode::Terminal(_))));
    assert!(defs.get(C).is_none());
    let grammar = Grammar::compile(&r(A, "A"), &defs).unwrap();
    assert_eq!(grammar.to_bnf(), "START ::= A\nA ::= \"c\"");
}

#[test]
fn a_back_reference_marks_the_rules_that_enclose_it() {
    let mut defs = Definitions::new();
    defs.define(A, t("a") + r(B, "B"));
    defs.define(B, (t("b") + r(A, "A")) | t("c"));
    defs.define(C, t("c"));
    let grammar = Grammar::compile(&(r(C, "C") + r(A, "A")), &defs).unwrap();
    assert!(!grammar.rule(grammar.rule_index(C).unwrap()).is_recursive);
    assert!(grammar.rule(grammar.rule_index(A).unwrap()).is_recursive);
    assert!(grammar.rule(grammar.rule_index(B).unwrap()).is_recursive);
}
