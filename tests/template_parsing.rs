use remplate::{parse_template, render_literal_fragment, ParseResult, TemplateParseError};

#[test]
fn parse_html_template() {
    let to_parse = "<h1>{let x = 15;}{x}</h1>";
    let result = parse_template(to_parse);
    assert_eq!(
        result,
        Ok(ParseResult {
            code_block_fragment_ranges: vec![5..16, 18..19],
            template_fragment_ranges: vec![0..4, 17..17, 20..25],
        })
    )
}

#[test]
fn parse_broken_html_template_unclosed_delimiter() {
    let to_parse = "<h1>{let x = {15;}{x}</h1>";
    let result = parse_template(to_parse);
    assert_eq!(
        result,
        Err(TemplateParseError::CodeBlockHasNoEnd { position: 4 })
    )
}

#[test]
fn parse_broken_html_template_unclosed_delimiter_2() {
    let to_parse = r#"<h1>{let x = "15;}{x}</h1>"#;
    let result = parse_template(to_parse);
    assert_eq!(
        result,
        Err(TemplateParseError::StrHasNoEnd { position: 13 })
    )
}

fn reassembled(input: &str, result: &ParseResult) -> String {
    let mut out = String::new();
    let lits = &result.template_fragment_ranges;
    let blocks = &result.code_block_fragment_ranges;
    for (j, block) in blocks.iter().enumerate() {
        out.push_str(&input[lits[j].clone()]);
        out.push('{');
        out.push_str(&input[block.clone()]);
        out.push('}');
    }
    out.push_str(&input[lits[lits.len() - 1].clone()]);
    out
}

#[test]
fn round_trip_restores_document() {
    for doc in [
        "<h1>{let x = 15;}{x}</h1>",
        "{a}{b}",
        "plain text",
        "",
        "a{{b{c}d",
        r##"<p>{let s = r#"}"#; s}</p>"##,
    ] {
        let result = parse_template(doc).unwrap();
        assert_eq!(reassembled(doc, &result), doc);
    }
}

#[test]
fn ranges_are_disjoint_and_ordered() {
    let doc = "x{a}{}y{{z{b:?}w";
    let result = parse_template(doc).unwrap();
    let lits = &result.template_fragment_ranges;
    let blocks = &result.code_block_fragment_ranges;
    assert_eq!(lits.len(), blocks.len() + 1);
    let mut all = Vec::new();
    for (j, block) in blocks.iter().enumerate() {
        all.push(lits[j].clone());
        all.push(block.clone());
    }
    all.push(lits[lits.len() - 1].clone());
    for pair in all.windows(2) {
        assert!(pair[0].start <= pair[0].end);
        assert!(pair[0].end < pair[1].start);
    }
    assert_eq!(all[0].start, 0);
    assert_eq!(all[all.len() - 1].end, doc.len());
}

#[test]
fn nested_block_closes_at_outer_delimiter() {
    let result = parse_template("<h1>{let x = {1};}{x}</h1>");
    assert_eq!(
        result,
        Ok(ParseResult {
            code_block_fragment_ranges: vec![5..17, 19..20],
            template_fragment_ranges: vec![0..4, 18..18, 21..26],
        })
    )
}

#[test]
fn escaped_delimiter_stays_literal() {
    let doc = "a{{b";
    let result = parse_template(doc).unwrap();
    assert_eq!(result.code_block_fragment_ranges, vec![]);
    assert_eq!(result.template_fragment_ranges, vec![0..4]);
    let rendered = render_literal_fragment(doc, 0..4);
    assert_eq!(String::from_utf8(rendered).unwrap(), "a{b");
}

#[test]
fn escaped_delimiters_render_pairwise() {
    let doc = "{{{{x{{";
    let result = parse_template(doc).unwrap();
    assert_eq!(result.template_fragment_ranges, vec![0..7]);
    assert_eq!(render_literal_fragment(doc, 0..7), b"{{x{".to_vec());
    assert_eq!(render_literal_fragment(doc, 4..5), b"x".to_vec());
}

#[test]
fn document_without_blocks_is_one_fragment() {
    assert_eq!(
        parse_template(""),
        Ok(ParseResult {
            code_block_fragment_ranges: vec![],
            template_fragment_ranges: vec![0..0],
        })
    );
    assert_eq!(
        parse_template("just text"),
        Ok(ParseResult {
            code_block_fragment_ranges: vec![],
            template_fragment_ranges: vec![0..9],
        })
    );
}

#[test]
fn unterminated_literal_reports_its_quote() {
    assert_eq!(
        parse_template(r#"{let x = "15;}"#),
        Err(TemplateParseError::StrHasNoEnd { position: 9 })
    );
}

#[test]
fn trailing_open_delimiter_is_unterminated() {
    assert_eq!(
        parse_template("abc{"),
        Err(TemplateParseError::CodeBlockHasNoEnd { position: 3 })
    );
}

#[test]
fn first_error_in_document_order_wins() {
    assert_eq!(
        parse_template(r#"{"a}{"#),
        Err(TemplateParseError::StrHasNoEnd { position: 1 })
    );
}

#[test]
fn multibyte_text_keeps_byte_offsets() {
    let doc = "é{x}ü";
    assert_eq!(
        parse_template(doc),
        Ok(ParseResult {
            code_block_fragment_ranges: vec![3..4],
            template_fragment_ranges: vec![0..2, 5..7],
        })
    );
}
