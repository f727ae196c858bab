use chainmail::Span;

#[test]
fn new_keeps_source_and_offsets() {
    let span = Span::new("main.cm", 3..8);
    assert_eq!(span.context(), "main.cm");
    assert_eq!(span.start(), 3);
    assert_eq!(span.end(), 8);
    assert_eq!(span, Span { file: "main.cm", start: 3, end: 8 });
}

#[test]
fn merge_runs_from_first_start_to_second_end() {
    let a = Span::new("main.cm", 2..5);
    let b = Span::new("main.cm", 7..11);
    assert_eq!(a.merge(b), Span::new("main.cm", 2..11));
}

#[test]
fn merge_of_a_span_with_itself_is_the_span() {
    let a = Span::new("main.cm", 4..9);
    assert_eq!(a.merge(a), a);
}

#[test]
fn merge_of_touching_and_empty_spans() {
    let a = Span::new("main.cm", 0..4);
    let b = Span::new("main.cm", 4..4);
    assert_eq!(a.merge(b), Span::new("main.cm", 0..4));
}

#[test]
fn merge_is_associative_on_spans_in_order() {
    let a = Span::new("main.cm", 0..1);
    let b = Span::new("main.cm", 2..3);
    let c = Span::new("main.cm", 4..9);
    assert_eq!(a.merge(b).merge(c), a.merge(b.merge(c)));
    assert_eq!(a.merge(b).merge(c), Span::new("main.cm", 0..9));
}
