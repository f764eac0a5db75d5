use incparse::decide::find_cycle;
use incparse::decide::find_undecidable_rule;
use incparse::grammar::shift_references;
use incparse::grammar::Rule;
use incparse::grammar_dsl::NormalizedNode;
use incparse::nullable::analyze_nullability;
use incparse::nullable::node_nullable;
use incparse::nullable::nullability_pass;
use incparse::words::Pattern;

fn rule(name: &str, node: NormalizedNode) -> Rule {
    Rule { name: String::from(name), node, is_recursive: false, is_nullable: false }
}

fn lit(text: &str) -> NormalizedNode {
    NormalizedNode::Terminal(Pattern::Literal(String::from(text)))
}

fn flags(rules: &[Rule]) -> Vec<bool> {
    rules.iter().map(|r| r.is_nullable).collect()
}

/// `0: 1 2`, `1: "a" | ()`, `2: 1 1`, `3: "b" 0`, `4: 4 | "c"`.
fn table() -> Vec<Rule> {
    vec![
        rule(
            "zero",
            NormalizedNode::Sequence(vec![
                NormalizedNode::Reference(1),
                NormalizedNode::Reference(2),
            ]),
        ),
        rule(
            "one",
            NormalizedNode::Choice(vec![lit("a"), NormalizedNode::Sequence(vec![])]),
        ),
        rule(
            "two",
            NormalizedNode::Sequence(vec![
                NormalizedNode::Reference(1),
                NormalizedNode::Reference(1),
            ]),
        ),
        rule(
            "three",
            NormalizedNode::Sequence(vec![lit("b"), NormalizedNode::Reference(0)]),
        ),
        rule(
            "four",
            NormalizedNode::Choice(vec![NormalizedNode::Reference(4), lit("c")]),
        ),
    ]
}

#[test]
fn the_analysis_finds_the_least_fixpoint() {
    let mut rules = table();
    analyze_nullability(&mut rules);
    assert_eq!(flags(&rules), vec![true, true, true, false, false]);
}

#[test]
fn the_analysis_of_an_analysed_table_changes_nothing() {
    let mut rules = table();
    analyze_nullability(&mut rules);
    let once = flags(&rules);
    assert!(!nullability_pass(&mut rules));
    assert_eq!(flags(&rules), once);
    analyze_nullability(&mut rules);
    assert_eq!(flags(&rules), once);
}

#[test]
fn the_analysis_starts_from_cleared_flags() {
    let mut rules = table();
    for r in rules.iter_mut() {
        r.is_nullable = true;
    }
    analyze_nullability(&mut rules);
    assert_eq!(flags(&rules), vec![true, true, true, false, false]);
}

#[test]
fn a_pass_sets_what_the_flags_as_they_stand_give() {
    let mut rules = table();
    assert!(nullability_pass(&mut rules));
    assert_eq!(flags(&rules), vec![false, true, true, false, false]);
    assert!(nullability_pass(&mut rules));
    assert_eq!(flags(&rules), vec![true, true, true, false, false]);
    assert!(!nullability_pass(&mut rules));
}

#[test]
fn an_expression_is_nullable_by_its_shape() {
    let mut rules = table();
    analyze_nullability(&mut rules);
    assert!(node_nullable(&NormalizedNode::Sequence(vec![]), &rules));
    assert!(!node_nullable(&NormalizedNode::Choice(vec![]), &rules));
    assert!(!node_nullable(&NormalizedNode::Placeholder, &rules));
    assert!(node_nullable(&NormalizedNode::Reference(1), &rules));
    assert!(!node_nullable(&NormalizedNode::Reference(9), &rules));
    assert!(node_nullable(&lit(""), &rules));
}

#[test]
fn a_self_call_in_a_choice_is_found() {
    let mut rules = table();
    analyze_nullability(&mut rules);
    assert_eq!(find_undecidable_rule(&rules), Some(4));
}

#[test]
fn calls_behind_a_consuming_part_do_not_count() {
    let mut rules = table();
    rules.pop();
    analyze_nullability(&mut rules);
    assert_eq!(find_undecidable_rule(&rules), None);
}

#[test]
fn calls_behind_nullable_parts_count() {
    // `0: 1 0`, `1: ()`: rule 0 calls itself behind a nullable part.
    let mut rules = vec![
        rule(
            "zero",
            NormalizedNode::Sequence(vec![
                NormalizedNode::Reference(1),
                NormalizedNode::Reference(0),
            ]),
        ),
        rule("one", NormalizedNode::Sequence(vec![])),
    ];
    analyze_nullability(&mut rules);
    assert_eq!(find_undecidable_rule(&rules), Some(0));
}

#[test]
fn a_cycle_is_found_in_a_graph() {
    assert_eq!(find_cycle(&vec![]), None);
    assert_eq!(find_cycle(&vec![vec![1], vec![2], vec![]]), None);
    assert_eq!(find_cycle(&vec![vec![1, 2], vec![2], vec![]]), None);
    assert_eq!(find_cycle(&vec![vec![1], vec![2], vec![1]]), Some(1));
    assert_eq!(find_cycle(&vec![vec![], vec![1]]), Some(1));
    assert_eq!(find_cycle(&vec![vec![7], vec![0]]), None);
}

#[test]
fn references_are_shifted_throughout() {
    let node = NormalizedNode::Choice(vec![
        NormalizedNode::Sequence(vec![lit("a"), NormalizedNode::Reference(2)]),
        NormalizedNode::Reference(0),
        NormalizedNode::Placeholder,
    ]);
    match shift_references(&node, 3) {
        NormalizedNode::Choice(parts) => {
            assert_eq!(parts.len(), 3);
            match &parts[0] {
                NormalizedNode::Sequence(inner) => {
                    assert!(matches!(&inner[0], NormalizedNode::Terminal(Pattern::Literal(s)) if s == "a"));
                    assert!(matches!(inner[1], NormalizedNode::Reference(5)));
                }
                _ => panic!("a sequence stays a sequence"),
            }
            assert!(matches!(parts[1], NormalizedNode::Reference(3)));
            assert!(matches!(parts[2], NormalizedNode::Placeholder));
        }
        _ => panic!("a choice stays a choice"),
    }
}
