use incparse::utils::Span;
use incparse::words::Lexical;

#[test]
fn it_works() {}

#[test]
fn span_new_len_adds_the_length() {
    let span = Span::new_len(3, 4);
    assert_eq!(span, Span::new(3, 7));
    assert_eq!(span.len(), 4);
}

#[test]
fn spans_join_from_the_first_start_to_the_last_end() {
    assert_eq!(Span::new(1, 4) + Span::new(6, 9), Span::new(1, 9));
    assert_eq!(Span::empty(), Span::new(0, 0));
    assert_eq!(Span::empty().len(), 0);
}

#[test]
fn a_vector_gives_its_stretches() {
    let text = vec![1, 2, 3, 4, 5];
    assert_eq!(Lexical::len(&text), 5);
    assert_eq!(text.span(), Span::new(0, 5));
    assert_eq!(text.slice(Span::new(1, 3)), &[2, 3]);
    assert_eq!(text.slice(Span::new(5, 5)), &[] as &[i32]);
}
