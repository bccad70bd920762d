use remplate::{classify_block, compile_template, Formattable, TemplateExpression, TemplateParseError, TemplatePiece};

#[test]
fn statement_and_value_split() {
    let doc = "{let x = 15; x:?}";
    let result = classify_block(doc, 1..16);
    assert_eq!(
        result,
        Ok(Some(TemplateExpression::CodeBlockWithFormattable(
            1..12,
            Formattable {
                expression: 13..14,
                format_spec: Some(14..16),
            }
        )))
    );
    assert_eq!(&doc[1..12], "let x = 15;");
    assert_eq!(&doc[13..16], "x:?");
    assert_eq!(&doc[13..14], "x");
    assert_eq!(&doc[14..16], ":?");
}

#[test]
fn empty_value_is_missing_value() {
    assert_eq!(
        classify_block("{:?}", 1..3),
        Err(TemplateParseError::MissingValue { position: 1 })
    );
    assert_eq!(
        classify_block("{let a = 1;  :x }", 1..16),
        Err(TemplateParseError::MissingValue { position: 13 })
    );
}

#[test]
fn statements_only() {
    assert_eq!(
        classify_block("{let x = 15; }", 1..13),
        Ok(Some(TemplateExpression::CodeBlock(1..12)))
    );
}

#[test]
fn value_only_is_trimmed() {
    assert_eq!(
        classify_block("{ name }", 1..7),
        Ok(Some(TemplateExpression::Formattable(Formattable {
            expression: 2..6,
            format_spec: None,
        })))
    );
}

#[test]
fn blank_block_has_nothing() {
    assert_eq!(classify_block("{}", 1..1), Ok(None));
    assert_eq!(classify_block("{ \t\n }", 1..5), Ok(None));
}

#[test]
fn separators_inside_literals_are_ignored() {
    let doc = r#"{let s = "a;b"; f("x:y")}"#;
    let end = doc.len() - 1;
    assert_eq!(
        classify_block(doc, 1..end),
        Ok(Some(TemplateExpression::CodeBlockWithFormattable(
            1..15,
            Formattable {
                expression: 16..end,
                format_spec: None,
            }
        )))
    );
}

#[test]
fn last_statement_separator_is_used() {
    assert_eq!(
        classify_block("{a; b; c}", 1..8),
        Ok(Some(TemplateExpression::CodeBlockWithFormattable(
            1..6,
            Formattable {
                expression: 7..8,
                format_spec: None,
            }
        )))
    );
}

#[test]
fn compiles_document_into_pieces() {
    let result = compile_template("<h1>{let x = 15;}{x:?}</h1>");
    assert_eq!(
        result,
        Ok(vec![
            TemplatePiece::Literal(0..4),
            TemplatePiece::Statements(5..16),
            TemplatePiece::Literal(17..17),
            TemplatePiece::Value(Formattable {
                expression: 18..19,
                format_spec: Some(19..21),
            }),
            TemplatePiece::Literal(22..27),
        ])
    );
}

#[test]
fn compile_skips_blank_blocks_and_reports_first_error() {
    assert_eq!(
        compile_template("a{ }b"),
        Ok(vec![TemplatePiece::Literal(0..1), TemplatePiece::Literal(4..5)])
    );
    assert_eq!(
        compile_template("{x}{:?}{"),
        Err(TemplateParseError::MissingValue { position: 4 })
    );
    assert_eq!(
        compile_template("{x}{\"}{:?}"),
        Err(TemplateParseError::StrHasNoEnd { position: 4 })
    );
    assert_eq!(
        compile_template("{x}{:?}"),
        Err(TemplateParseError::MissingValue { position: 4 })
    );
}

#[test]
fn unicode_whitespace_is_blank() {
    assert_eq!(classify_block("{\u{0B}}", 1..2), Ok(None));
    assert_eq!(classify_block("{\u{3000}}", 1..4), Ok(None));
    assert_eq!(classify_block("{\u{85}\u{a0}\u{2009}}", 1..8), Ok(None));
    assert_eq!(
        classify_block("{a;\u{0B}}", 1..4),
        Ok(Some(TemplateExpression::CodeBlock(1..3)))
    );
    assert_eq!(
        classify_block("{a;\u{2028}}", 1..6),
        Ok(Some(TemplateExpression::CodeBlock(1..3)))
    );
}

#[test]
fn value_is_trimmed_of_unicode_whitespace() {
    let doc = "{\u{a0}x\u{3000}}";
    assert_eq!(
        classify_block(doc, 1..7),
        Ok(Some(TemplateExpression::Formattable(Formattable {
            expression: 3..4,
            format_spec: None,
        })))
    );
    assert_eq!(&doc[3..4], "x");
}

#[test]
fn non_whitespace_multibyte_is_kept() {
    assert_eq!(
        classify_block("{\u{e9}}", 1..3),
        Ok(Some(TemplateExpression::Formattable(Formattable {
            expression: 1..3,
            format_spec: None,
        })))
    );
}
