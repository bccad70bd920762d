use remplate::{parse_template, TemplateError, TemplateErrorKind, TemplateParseError};
use std::path::PathBuf;

#[test]
fn error_points_at_one_byte() {
    let path = PathBuf::from("page.html");
    let template = "<h1>{let x = {15;}{x}</h1>";
    let error = parse_template(template).unwrap_err();
    let error = error.into(&path, template);
    assert_eq!(error.0, 4..5);
    assert_eq!(error.1, &path);
    assert_eq!(error.2, template);
    assert_eq!(error.3, TemplateErrorKind::ClosingToken);
}

#[test]
fn missing_value_keeps_its_kind() {
    let path = PathBuf::from("t");
    let error = TemplateParseError::MissingValue { position: 1 }.into(&path, "{:?}");
    assert_eq!(error.3, TemplateErrorKind::MissingValue);
    assert_eq!(
        error.3.description(),
        "The format expression misses a value -"
    );
    assert_eq!(
        TemplateErrorKind::ClosingToken.description(),
        "Failed to find closing token for"
    );
}

#[test]
fn context_window_is_symmetric() {
    let path = PathBuf::from("page.html");
    let template = "<h1>{let x = {15;}{x}</h1>";
    let error = TemplateError(4..5, &path, template, TemplateErrorKind::ClosingToken);
    assert_eq!(error.left_erroneous_slice(), "\"<h1>\"");
    assert_eq!(error.right_erroneous_slice(), "\"let x = {15;}{x}</h1\"");
    assert_eq!(error.erroneous_character(), "{");
    let (line, pointer) = error.erroneous_window();
    assert_eq!(line, "<h1>{let ");
    assert_eq!(pointer, "     ^");
}

#[test]
fn context_is_bounded_by_padding() {
    let path = PathBuf::from("t");
    let template = "0123456789abcdefghijKLMNOPQRSTUVWXYZ{0123456789abcdefghijklmn";
    let error = TemplateError(36..37, &path, template, TemplateErrorKind::ClosingToken);
    assert_eq!(error.left_erroneous_slice(), "\"ghijKLMNOPQRSTUVWXYZ\"");
    assert_eq!(error.right_erroneous_slice(), "\"0123456789abcdefghij\"");
    let (line, pointer) = error.erroneous_window();
    assert_eq!(line, "ghijKLMNOPQRSTUVWXYZ{0123456789abcdefghij");
    assert_eq!(pointer, format!("{}^", " ".repeat(21)));
}

#[test]
fn context_is_escaped() {
    let path = PathBuf::from("t");
    let template = "a\n{\"b";
    let error = TemplateError(2..3, &path, template, TemplateErrorKind::ClosingToken);
    assert_eq!(error.left_erroneous_slice(), "\"a\\n\"");
    assert_eq!(error.right_erroneous_slice(), "\"\\\"b\"");
    assert_eq!(error.erroneous_character(), "{");
    let quote = TemplateError(3..4, &path, template, TemplateErrorKind::ClosingToken);
    assert_eq!(quote.erroneous_character(), "\\\"");
}

#[test]
fn context_keeps_whole_characters() {
    let path = PathBuf::from("t");
    let template = "ééééééééééé{x";
    let error = TemplateError(22..23, &path, template, TemplateErrorKind::ClosingToken);
    assert_eq!(error.left_erroneous_slice(), "\"éééééééééé\"");
    assert_eq!(error.right_erroneous_slice(), "\"x\"");
}

#[test]
fn window_cuts_sides_to_the_narrower_one() {
    let (line, pointer) = remplate::context_window("\"ab\"", "{", "\"cdef\"");
    assert_eq!(line, "ab{cd");
    assert_eq!(pointer, "   ^");
    let (line, pointer) = remplate::context_window("\"abcdef\"", "\\n", "\"x\"");
    assert_eq!(line, "f\\nx");
    assert_eq!(pointer, "  ^");
    let (line, pointer) = remplate::context_window("\"\"", "{", "\"xyz\"");
    assert_eq!(line, "{");
    assert_eq!(pointer, " ^");
}

#[test]
fn unquote_drops_outer_characters() {
    assert_eq!(remplate::unquote("\"é\""), "é");
    assert_eq!(remplate::unquote("\"\""), "");
}
