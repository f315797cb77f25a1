use kobo_driver::scenario::KoboSpan;
use kobo_driver::source_spans::{line_snippet, one_based_line_for_offset, source_span_from_kobo, source_span_from_range};

#[test]
fn lines_count_newlines_before_the_offset() {
    let source = "a\nbb\n\nccc";
    assert_eq!(one_based_line_for_offset(source, 0), 1);
    assert_eq!(one_based_line_for_offset(source, 2), 2);
    assert_eq!(one_based_line_for_offset(source, 5), 3);
    assert_eq!(one_based_line_for_offset(source, 6), 4);
    assert_eq!(one_based_line_for_offset(source, 100), 4);
}

#[test]
fn snippets_are_the_trimmed_line() {
    let source = "fn f() {\n    let x = 1;  \n}";
    assert_eq!(line_snippet(source, 13), "let x = 1;");
    assert_eq!(line_snippet(source, 8), "fn f() {");
    assert_eq!(line_snippet(source, 9), "let x = 1;");
    assert_eq!(line_snippet(source, 1000), "}");
}

#[test]
fn ranges_are_clamped_and_at_least_one_byte() {
    let source = "héllo\nworld";
    let span = source_span_from_range("a.kobo", source, 3, 3);
    assert_eq!(span.path, "a.kobo");
    assert_eq!((span.start, span.end), (3, 4));
    assert!(span.mapped);
    assert_eq!(span.line, 1);
    assert_eq!(span.snippet, "héllo");
    let span = source_span_from_range("a.kobo", source, 50, 60);
    assert_eq!((span.start, span.end), (source.len(), source.len()));
    assert!(!span.mapped);
    assert_eq!(span.line, 2);
    assert_eq!(span.snippet, "world");
    let span = source_span_from_kobo("a.kobo", source, KoboSpan { file_id: 0, start: 7, end: 9 });
    assert_eq!((span.start, span.end, span.line), (7, 9, 2));
    assert_eq!(span.snippet, "world");
}
