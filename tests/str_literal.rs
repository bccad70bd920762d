use remplate::{parse_str_literal, StrLiteralParseError};

#[test]
fn parse_str_lit() {
    let to_parse = r###""some " text" rest"###;
    let result = parse_str_literal(to_parse);
    assert_eq!(result, Ok(0..6))
}

#[test]
fn parse_r_str_lit() {
    let to_parse = r###"r##"some"# "## text"## rest"###;
    let result = parse_str_literal(to_parse);
    assert_eq!(result, Ok(0..13))
}

#[test]
fn parse_no_str_lit_at_start() {
    let to_parse = r###"start "some " text" rest"###;
    let result = parse_str_literal(to_parse);
    assert_eq!(result, Err(StrLiteralParseError::NoStrFound))
}

#[test]
fn parse_no_r_str_lit_at_start() {
    let to_parse = r###"start r##"some"# "## text"##"###;
    let result = parse_str_literal(to_parse);
    assert_eq!(result, Err(StrLiteralParseError::NoStrFound))
}

#[test]
fn parse_no_r_str_lit_end() {
    let to_parse = r###"r##"some"# text "###;
    let result = parse_str_literal(to_parse);
    assert_eq!(result, Err(StrLiteralParseError::StrHasNoEnd { start: 0 }))
}

#[test]
fn parse_no_str_lit_end() {
    let to_parse = r###""some text "###;
    let result = parse_str_literal(to_parse);
    assert_eq!(result, Err(StrLiteralParseError::StrHasNoEnd { start: 0 }))
}

#[test]
fn raw_literal_needs_exact_fence_count() {
    assert_eq!(parse_str_literal(r###"r##"a"#b"##"###), Ok(0..10));
    assert_eq!(parse_str_literal(r###"r##"a"b"#c"##d"###), Ok(0..12));
    assert_eq!(
        parse_str_literal(r###"r##"a" "#"###),
        Err(StrLiteralParseError::StrHasNoEnd { start: 0 })
    );
}

#[test]
fn raw_literal_without_fences() {
    assert_eq!(parse_str_literal(r#"r"a#"b"#), Ok(0..4));
}

#[test]
fn empty_plain_literal() {
    assert_eq!(parse_str_literal(r#""""x"#), Ok(0..1));
}

#[test]
fn marker_without_quote_is_no_literal() {
    assert_eq!(parse_str_literal("r##x"), Err(StrLiteralParseError::NoStrFound));
    assert_eq!(parse_str_literal("r##"), Err(StrLiteralParseError::NoStrFound));
    assert_eq!(parse_str_literal(""), Err(StrLiteralParseError::NoStrFound));
}

#[test]
fn raw_literal_is_not_closed_by_more_fences() {
    assert_eq!(parse_str_literal(r###"r#"a"##"#"###), Ok(0..8));
    assert_eq!(
        parse_str_literal(r###"r#"a"##"###),
        Err(StrLiteralParseError::StrHasNoEnd { start: 0 })
    );
    assert_eq!(parse_str_literal(r###""a"#"###), Ok(0..2));
}
