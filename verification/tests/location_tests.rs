use vulpi::build_error::{BuildError, BuildErrorKind, Severity};
use vulpi::location::{Byte, FileId, Span, Spanned};

#[test]
fn ghost_span_points_nowhere() {
    let span = Span::ghost();
    assert_eq!(span, Span { file: FileId(0), start: Byte(0), end: Byte(0) });
}

#[test]
fn new_span_keeps_its_parts() {
    let span = Span::new(FileId(7), Byte(3), Byte(11));
    assert_eq!(span.file, FileId(7));
    assert_eq!(span.start, Byte(3));
    assert_eq!(span.end, Byte(11));
}

#[test]
fn span_from_offsets() {
    let span = Span::from_usize(FileId(2), 4, 9);
    assert_eq!(span, Span::new(FileId(2), Byte(4), Byte(9)));
}

#[test]
fn mix_covers_both_spans() {
    let a = Span::from_usize(FileId(1), 2, 5);
    let b = Span::from_usize(FileId(1), 4, 9);
    assert_eq!(a.mix(b), Span::from_usize(FileId(1), 2, 9));
    assert_eq!(b.mix(a), Span::from_usize(FileId(1), 2, 9));
}

#[test]
fn mix_keeps_the_file_of_the_first_span() {
    let a = Span::from_usize(FileId(1), 10, 12);
    let b = Span::from_usize(FileId(3), 0, 4);
    assert_eq!(a.mix(b), Span::from_usize(FileId(1), 0, 12));
    assert_eq!(b.mix(a), Span::from_usize(FileId(3), 0, 12));
}

#[test]
fn mix_with_an_inner_span_is_the_outer_span() {
    let outer = Span::from_usize(FileId(0), 0, 10);
    let inner = Span::from_usize(FileId(0), 3, 4);
    assert_eq!(outer.mix(inner), outer);
    assert_eq!(inner.mix(outer), outer);
}

#[test]
fn spanned_map_keeps_the_span() {
    let span = Span::from_usize(FileId(4), 1, 2);
    let value = Spanned::new(21u64, span);
    let doubled = value.map(|x: &u64| *x * 2);
    assert_eq!(doubled.data, 42);
    assert_eq!(doubled.span, span);
}

#[test]
fn spanned_with_replaces_the_data() {
    let span = Span::from_usize(FileId(4), 5, 8);
    let value = Spanned::new(1u8, span);
    let replaced = value.with("name");
    assert_eq!(replaced.data, "name");
    assert_eq!(replaced.span, span);
}

#[test]
fn build_error_message_severity_and_location() {
    let span = Span::from_usize(FileId(1), 3, 7);
    let error = BuildError { span, kind: BuildErrorKind::NotFound };
    assert_eq!(error.message(), "module not found".to_string());
    assert_eq!(error.severity(), Severity::Error);
    assert_eq!(error.location(), span);
}

#[test]
fn span_text_shows_start_and_end() {
    assert_eq!(Span::ghost().text(), "0~0");
    assert_eq!(Span::from_usize(FileId(3), 12, 345).text(), "12~345");
    assert_eq!(Span::from_usize(FileId(0), 9, 10).text(), "9~10");
}
