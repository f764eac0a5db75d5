use incparse::utils::Range;
use incparse::words::Combine;
use incparse::words::EndOfInput;
use incparse::words::Matcher;
use incparse::words::Pattern;
use incparse::words::StartOfInput;
use incparse::words::State;

fn run<M: Matcher>(m: M, state: &mut State) -> bool {
    m.matches(state)
}

#[test]
fn a_literal_matches_its_text_and_moves_behind_it() {
    let mut state = State::new("hello world");
    assert!(run("hello", &mut state));
    assert_eq!(state.position(), 5);
    assert!(!run("world", &mut state));
    assert_eq!(state.position(), 5);
    assert!(run(" world", &mut state));
    assert_eq!(state.position(), 11);
    assert!(!run("x", &mut state));
}

#[test]
fn a_char_matches_one_character_of_any_width() {
    let mut state = State::new("aéz");
    assert!(run('a', &mut state));
    assert_eq!(state.position(), 1);
    assert!(!run('z', &mut state));
    assert!(run('é', &mut state));
    assert_eq!(state.position(), 3);
    assert!(run('z', &mut state));
    assert_eq!(state.position(), 4);
    assert!(!run('z', &mut state));
}

#[test]
fn the_ends_of_the_input_match_without_consuming() {
    let mut state = State::new("ab");
    assert!(run(StartOfInput, &mut state));
    assert!(!run(EndOfInput, &mut state));
    assert!(run("ab", &mut state));
    assert!(run(EndOfInput, &mut state));
    assert!(!run(StartOfInput, &mut state));
    assert_eq!(state.position(), 2);
}

#[test]
fn an_alternative_tries_the_second_from_where_the_first_began() {
    let m = "ab".and_then("x").or("abc");
    let mut state = State::new("abc");
    assert!(m.matches(&mut state));
    assert_eq!(state.position(), 3);
}

#[test]
fn a_failed_sequence_stays_behind_its_first_part() {
    let m = "ab".and_then("x");
    let mut state = State::new("abc");
    assert!(!m.matches(&mut state));
    assert_eq!(state.position(), 2);
}

#[test]
fn a_repetition_is_greedy_within_its_range() {
    let m = "a".times(1..4);
    let mut state = State::new("aaaaa");
    assert!(m.matches(&mut state));
    assert_eq!(state.position(), 3);
    let mut state = State::new("b");
    assert!(!m.matches(&mut state));
    assert_eq!(state.position(), 0);
    let m = "a".times(Range::at_least(0));
    let mut state = State::new("aaaaab");
    assert!(m.matches(&mut state));
    assert_eq!(state.position(), 5);
    let mut state = State::new("");
    assert!(m.matches(&mut state));
    assert_eq!(state.position(), 0);
}

#[test]
fn nullability_follows_the_shape() {
    assert!("".is_nullable());
    assert!(!"a".is_nullable());
    assert!(!'a'.is_nullable());
    assert!(EndOfInput.is_nullable());
    assert!(StartOfInput.is_nullable());
    assert!("a".or("").is_nullable());
    assert!(!"a".or("b").is_nullable());
    assert!("".and_then(EndOfInput).is_nullable());
    assert!(!"".and_then("b").is_nullable());
    assert!("a".times(Range::at_least(0)).is_nullable());
    assert!(!"a".times(Range::at_least(1)).is_nullable());
    assert!("".times(Range::at_least(1)).is_nullable());
    assert!(!"".times(3..2).is_nullable());
    assert!(!"a".times(3..2).is_nullable());
    assert!("a".times(0..0).is_nullable());
    assert!("a".is_consuming());
    assert!(!"".is_consuming());
}

#[test]
fn a_nullable_matcher_matches_the_empty_text() {
    let nullable: Vec<Pattern> = vec![
        "".to_pattern(),
        EndOfInput.to_pattern(),
        StartOfInput.to_pattern(),
        "a".or("").to_pattern(),
        "".and_then(EndOfInput).to_pattern(),
        "a".times(0..3).to_pattern(),
        "".times(2..=3).to_pattern(),
    ];
    for m in nullable.iter() {
        assert!(m.is_nullable());
        let mut state = State::new("");
        assert!(m.matches(&mut state));
        assert_eq!(state.position(), 0);
    }
    let consuming: Vec<Pattern> = vec![
        "a".to_pattern(),
        'a'.to_pattern(),
        "a".or("b").to_pattern(),
        "a".times(1..).to_pattern(),
    ];
    for m in consuming.iter() {
        assert!(!m.is_nullable());
        let mut state = State::new("");
        assert!(!m.matches(&mut state));
    }
}

#[test]
fn matchers_show_themselves() {
    assert_eq!("ab".display(), "\"ab\"");
    assert_eq!('c'.display(), "'c'");
    assert_eq!(EndOfInput.display(), "EOF");
    assert_eq!(StartOfInput.display(), "SOF");
    assert_eq!("a".or("b").display(), "<terminal>");
    assert_eq!("a".and_then("b").display(), "<terminal>");
    assert_eq!("a".times(Range::at_least(0)).display(), "<terminal>");
}

#[test]
fn ranges_have_a_least_and_a_largest_count() {
    let r = Range::from(2..5);
    assert_eq!(r.min(), 2);
    assert_eq!(r.max(), 4);
    let r = Range::from(0..0);
    assert_eq!(r.max(), 0);
    let r = Range::at_least(3);
    assert_eq!(r.min(), 3);
    assert_eq!(r.max(), usize::MAX);
}

#[test]
fn every_kind_of_range_gives_its_counts() {
    assert_eq!(Range::from(2..=5), Range { start: 2, end: Some(6) });
    assert_eq!(Range::from(2..), Range { start: 2, end: None });
    assert_eq!(Range::from(..5), Range { start: 0, end: Some(5) });
    assert_eq!(Range::from(..=5), Range { start: 0, end: Some(6) });
    assert_eq!(Range::from(..), Range { start: 0, end: None });
    assert_eq!(Range::from(0..=usize::MAX), Range { start: 0, end: None });
    assert_eq!(Range::from(..=usize::MAX).max(), usize::MAX);
    let from: std::ops::RangeFrom<usize> = Range::from(3..7).into();
    assert_eq!(from.start, 3);
}

#[test]
fn a_state_can_begin_anywhere() {
    let mut state = State::at("abcabc", 3);
    assert!(run("abc", &mut state));
    assert_eq!(state.position(), 6);
    assert_eq!(state.input(), "abcabc");
    let mut state = State::at("abc", 7);
    assert!(!run("", &mut state));
    assert!(run(EndOfInput, &mut state));
    assert!(!run('a', &mut state));
}

#[test]
fn a_repetition_with_a_failed_part_stays_behind_it() {
    let m = "a".and_then("b").times(0..);
    let mut state = State::new("aba");
    assert!(m.matches(&mut state));
    assert_eq!(state.position(), 3);
}

#[test]
fn a_repetition_whose_range_holds_no_count_never_matches() {
    let m = "".times(3..2);
    assert!(!m.is_nullable());
    let mut state = State::new("");
    assert!(!m.matches(&mut state));
    let mut state = State::new("abc");
    assert!(!m.matches(&mut state));
    assert_eq!(state.position(), 0);
    let m = "a".times(5..3);
    let mut state = State::new("aaaaaa");
    assert!(!m.matches(&mut state));
    assert_eq!(state.position(), 0);
}
