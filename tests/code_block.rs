use remplate::{parse_code_block, CodeBlockParseError};

#[test]
fn parse_block() {
    let to_parse = "{let x = 15;} <br/>";
    let result = parse_code_block(to_parse);
    assert_eq!(result, Ok(12))
}

#[test]
fn parse_block_without_end() {
    let to_parse = "{let x = 15; <br/>";
    let result = parse_code_block(to_parse);
    assert_eq!(result, Err(CodeBlockParseError::BlockHasNoEnd))
}

#[test]
fn parse_escaped_block() {
    let to_parse = "{{ <br/>";
    let result = parse_code_block(to_parse);
    assert_eq!(result, Err(CodeBlockParseError::Escaped))
}

#[test]
fn parse_block_with_str_literal() {
    let to_parse = r#"{let x = "my str";} <br/>"#;
    let result = parse_code_block(to_parse);
    assert_eq!(result, Ok(18))
}

#[test]
fn parse_block_with_r_str_literal() {
    let to_parse = r##"{let x = r#"my "str"#;} <br/>"##;
    let result = parse_code_block(to_parse);
    assert_eq!(result, Ok(22))
}

#[test]
fn parse_block_with_multiple_str_literal() {
    let to_parse = r##"{let x = r#"my "str"#; let y = "second str"; } <br/>"##;
    let result = parse_code_block(to_parse);
    assert_eq!(result, Ok(45))
}

#[test]
fn parse_block_with_format_expression() {
    let to_parse = r##"{let x = r#"my "str"#; x:? } <br/>"##;
    let result = parse_code_block(to_parse);
    assert_eq!(result, Ok(27))
}

#[test]
fn parse_block_with_two_str() {
    let to_parse = r##"{"1""2"}"##;
    let result = parse_code_block(to_parse);
    assert_eq!(result, Ok(7))
}

#[test]
fn brace_inside_literal_does_not_close() {
    assert_eq!(parse_code_block(r#"{let s = "a}b";}"#), Ok(15));
}

#[test]
fn nested_pair_is_skipped() {
    assert_eq!(parse_code_block("{let x = {1};}{x}"), Ok(13));
    assert_eq!(parse_code_block("{a{b{c}}d}e}"), Ok(9));
}

#[test]
fn empty_literal_is_complete() {
    assert_eq!(parse_code_block(r#"{""}"#), Ok(3));
    assert_eq!(parse_code_block(r#"{"" "}" }"#), Ok(8));
}

#[test]
fn unterminated_literal_in_block() {
    assert_eq!(
        parse_code_block(r#"{let x = "15;}"#),
        Err(CodeBlockParseError::StrHasNoEnd { start: 9 })
    );
}

#[test]
fn empty_input_has_no_end() {
    assert_eq!(parse_code_block(""), Err(CodeBlockParseError::BlockHasNoEnd));
    assert_eq!(parse_code_block("{"), Err(CodeBlockParseError::BlockHasNoEnd));
}

#[test]
fn identifier_with_marker_is_not_a_literal() {
    assert_eq!(parse_code_block("{for x in r {}}"), Ok(14));
}
