use incparse::grammar::Definitions;
use incparse::grammar::Grammar;
use incparse::grammar::GrammarError;
use incparse::grammar_dsl::t;
use incparse::parser::is_valid_position;
use incparse::parser::is_valid_span;
use incparse::parser::Edit;
use incparse::parser::ParserError;
use incparse::parser::ParserState;
use incparse::tree::Tag;
use incparse::utils::Span;

#[test]
fn a_span_is_valid_up_to_the_end_of_the_text() {
    assert!(is_valid_span(Span::new(0, 5), "hello").is_ok());
    assert!(is_valid_span(Span::new(2, 3), "hello").is_ok());
    assert!(is_valid_span(Span::new(5, 5), "hello").is_ok());
    match is_valid_span(Span::new(2, 6), "hello") {
        Err(ParserError::SpanOutOfBounds { expected, actual }) => {
            assert_eq!(expected, Span::new(2, 6));
            assert_eq!(actual, Span::new(0, 5));
        }
        _ => panic!("the span must be refused"),
    }
}

#[test]
fn a_reversed_span_is_refused() {
    match is_valid_span(Span::new(2, 1), "abc") {
        Err(ParserError::SpanOutOfBounds { expected, actual }) => {
            assert_eq!(expected, Span::new(2, 1));
            assert_eq!(actual, Span::new(0, 3));
        }
        _ => panic!("the span must be refused"),
    }
}

#[test]
fn a_span_that_cuts_a_character_is_refused() {
    assert!(is_valid_span(Span::new(0, 3), "aéz").is_ok());
    assert!(is_valid_span(Span::new(1, 3), "aéz").is_ok());
    assert!(is_valid_span(Span::new(0, 2), "aéz").is_err());
    assert!(is_valid_span(Span::new(2, 4), "aéz").is_err());
    assert!(is_valid_position(1, "aéz").is_ok());
    assert!(is_valid_position(2, "aéz").is_err());
    assert!(is_valid_position(3, "aéz").is_ok());
}

#[test]
fn a_position_is_valid_up_to_the_end_of_the_text() {
    assert!(is_valid_position(0, "").is_ok());
    assert!(is_valid_position(5, "hello").is_ok());
    match is_valid_position(6, "hello") {
        Err(ParserError::PositionOutOfBounds { expected, actual }) => {
            assert_eq!(expected, Span::new(0, 5));
            assert_eq!(actual, 6);
        }
        _ => panic!("the position must be refused"),
    }
}

#[test]
fn an_edit_is_checked_by_its_kind() {
    let update = Edit::Update { span: Span::new(1, 3), new_text: String::from("xy") };
    let insert = Edit::Insert { position: 4, new_text: String::from("z") };
    let delete = Edit::Delete { span: Span::new(0, 4) };
    assert_eq!(update.validate("abcd").unwrap(), Span::new(1, 3));
    assert_eq!(insert.validate("abcd").unwrap(), Span::new(4, 4));
    assert_eq!(delete.validate("abcd").unwrap(), Span::new(0, 4));
    assert!(matches!(update.validate("ab"), Err(ParserError::SpanOutOfBounds { .. })));
    assert!(matches!(insert.validate("abc"), Err(ParserError::PositionOutOfBounds { .. })));
    assert!(matches!(delete.validate("abc"), Err(ParserError::SpanOutOfBounds { .. })));
}

#[test]
fn an_edit_that_applies_changes_the_text() {
    let mut text = String::from("hello world");
    let update = Edit::Update { span: Span::new(0, 5), new_text: String::from("goodbye") };
    assert!(update.apply(&mut text).is_ok());
    assert_eq!(text, "goodbye world");
    let insert = Edit::Insert { position: 7, new_text: String::from(",") };
    assert!(insert.apply(&mut text).is_ok());
    assert_eq!(text, "goodbye, world");
    let delete = Edit::Delete { span: Span::new(7, 14) };
    assert!(delete.apply(&mut text).is_ok());
    assert_eq!(text, "goodbye");
    let append = Edit::Insert { position: 7, new_text: String::from("!") };
    assert!(append.apply(&mut text).is_ok());
    assert_eq!(text, "goodbye!");
    let nothing = Edit::Delete { span: Span::new(3, 3) };
    assert!(nothing.apply(&mut text).is_ok());
    assert_eq!(text, "goodbye!");
}

#[test]
fn an_edit_that_does_not_apply_leaves_the_text() {
    let mut text = String::from("abc");
    let reversed = Edit::Delete { span: Span::new(2, 1) };
    match reversed.apply(&mut text) {
        Err(ParserError::SpanOutOfBounds { expected, actual }) => {
            assert_eq!(expected, Span::new(2, 1));
            assert_eq!(actual, Span::new(0, 3));
        }
        _ => panic!("the edit must be refused"),
    }
    assert_eq!(text, "abc");
    let reversed = Edit::Update { span: Span::new(3, 0), new_text: String::from("x") };
    assert!(matches!(reversed.apply(&mut text), Err(ParserError::SpanOutOfBounds { .. })));
    assert_eq!(text, "abc");
    let beyond = Edit::Insert { position: 4, new_text: String::from("x") };
    match beyond.apply(&mut text) {
        Err(ParserError::PositionOutOfBounds { expected, actual }) => {
            assert_eq!(expected, Span::new(0, 3));
            assert_eq!(actual, 4);
        }
        _ => panic!("the edit must be refused"),
    }
    assert_eq!(text, "abc");
    let mut text = String::from("aéz");
    let inside = Edit::Insert { position: 2, new_text: String::from("x") };
    assert!(matches!(inside.apply(&mut text), Err(ParserError::PositionOutOfBounds { .. })));
    let cut = Edit::Delete { span: Span::new(1, 2) };
    assert!(matches!(cut.apply(&mut text), Err(ParserError::SpanOutOfBounds { .. })));
    assert_eq!(text, "aéz");
    let whole = Edit::Delete { span: Span::new(1, 3) };
    assert!(whole.apply(&mut text).is_ok());
    assert_eq!(text, "az");
}

#[test]
fn a_new_state_holds_one_placeholder() {
    let defs = Definitions::new();
    let grammar = Grammar::compile(&t("a"), &defs).unwrap();
    let state = ParserState::new(grammar);
    assert_eq!(state.arena.len(), 1);
    assert_eq!(state.ast().offset, 0);
    assert!(state.ast().parent.is_none());
    let root = state.arena.get_node(state.ast().green);
    assert_eq!(root.tag, Tag::Error(GrammarError::Placeholder));
    assert_eq!(root.width, 0);
    assert!(state.text.is_empty());
    assert_eq!(state.grammar.len(), 1);
}
