use crate::classify::{classification, classify_block, Formattable, TemplateExpression};
use crate::code_block::{block_scan, lemma_block_scan_bounds, match_block, CodeBlockParseError};
use crate::lexeme::OPEN;
use crate::template::{span, TemplateParseError};
use std::ops::Range;
use vstd::prelude::*;
use vstd::string::StringSliceAdditionalSpecFns;

verus! {

/// One step of rendering a template, in document order.
#[derive(PartialEq, Eq, Debug)]
pub enum TemplatePiece {
    /// Literal text to output, its doubled opening delimiters read as single ones.
    Literal(Range<usize>),
    /// Statements to run.
    Statements(Range<usize>),
    /// A value to format and output.
    Value(Formattable),
}

/// The pieces that a classified block contributes.
pub open spec fn expression_pieces(e: Option<TemplateExpression>) -> Seq<TemplatePiece> {
    match e {
        None => Seq::empty(),
        Some(TemplateExpression::CodeBlock(r)) => seq![TemplatePiece::Statements(r)],
        Some(TemplateExpression::CodeBlockWithFormattable(r, f)) => seq![
            TemplatePiece::Statements(r),
            TemplatePiece::Value(f),
        ],
        Some(TemplateExpression::Formattable(f)) => seq![TemplatePiece::Value(f)],
    }
}

/// The pieces of `s` from position `i` on, the current literal fragment
/// starting at `start`. Blocks are split off as by `template_scan_from` and
/// classified as soon as they close, so the first error in document order
/// is the one reported, whether the scan or a classification finds it.
pub open spec fn pieces_from(s: Seq<u8>, i: int, start: int) -> Result<Seq<TemplatePiece>, TemplateParseError>
    decreases s.len() - i,
    via pieces_from_decreases
{
    if i < 0 || i >= s.len() {
        Ok(seq![TemplatePiece::Literal(span(start, s.len() as int))])
    } else if s[i] != OPEN {
        pieces_from(s, i + 1, start)
    } else {
        match block_scan(s.subrange(i, s.len() as int)) {
            Ok(c) => match classification(s.subrange(i + 1, i + c), i + 1) {
                Err(e) => Err(e),
                Ok(cl) => match pieces_from(s, i + c + 1, i + c + 1) {
                    Ok(rest) => Ok(
                        seq![TemplatePiece::Literal(span(start, i))] + expression_pieces(cl) + rest,
                    ),
                    Err(e) => Err(e),
                },
            },
            Err(CodeBlockParseError::Escaped) => pieces_from(s, i + 2, start),
            Err(CodeBlockParseError::BlockHasNoEnd) => Err(
                TemplateParseError::CodeBlockHasNoEnd { position: i as usize },
            ),
            Err(CodeBlockParseError::StrHasNoEnd { start: p }) => Err(
                TemplateParseError::StrHasNoEnd { position: (i + p) as usize },
            ),
        }
    }
}

#[via_fn]
proof fn pieces_from_decreases(s: Seq<u8>, i: int, start: int) {
    if 0 <= i < s.len() && s[i] == OPEN {
        lemma_block_scan_bounds(s.subrange(i, s.len() as int), 1, 0);
    }
}

/// The pieces of document `s`, or its first error.
pub open spec fn template_pieces(s: Seq<u8>) -> Result<Seq<TemplatePiece>, TemplateParseError> {
    pieces_from(s, 0, 0)
}

/// Appends the pieces of a classified block.
fn push_expression(pieces: &mut Vec<TemplatePiece>, cl: Option<TemplateExpression>)
    ensures
        final(pieces)@ == old(pieces)@ + expression_pieces(cl),
{
    let ghost before = pieces@;
    let ghost expr = expression_pieces(cl);
    match cl {
        None => {},
        Some(TemplateExpression::CodeBlock(r)) => {
            pieces.push(TemplatePiece::Statements(r));
        },
        Some(TemplateExpression::CodeBlockWithFormattable(r, f)) => {
            pieces.push(TemplatePiece::Statements(r));
            pieces.push(TemplatePiece::Value(f));
        },
        Some(TemplateExpression::Formattable(f)) => {
            pieces.push(TemplatePiece::Value(f));
        },
    }
    assert(pieces@ =~= before + expr);
}

/// Splits `input` and classifies each of its blocks: the steps that render
/// it, in order, or the first error in document order.
#[verifier::rlimit(40)]
pub fn compile_template(input: &str) -> (r: Result<Vec<TemplatePiece>, TemplateParseError>)
    ensures
        match r {
            Ok(pieces) => template_pieces(input.spec_bytes()) == Ok::<Seq<TemplatePiece>, TemplateParseError>(pieces@),
            Err(e) => {
                &&& template_pieces(input.spec_bytes()) == Err::<Seq<TemplatePiece>, TemplateParseError>(e)
                &&& e.spec_position() < input.spec_bytes().len()
            },
        },
{
    let s = input.as_bytes();
    let n = s.len();
    let mut pieces: Vec<TemplatePiece> = Vec::new();
    let mut i: usize = 0;
    let mut start: usize = 0;
    while i < n
        invariant
            n == s@.len(),
            s@ == input.spec_bytes(),
            start <= i <= n,
            template_pieces(s@) == match pieces_from(s@, i as int, start as int) {
                Ok(rest) => Ok::<Seq<TemplatePiece>, TemplateParseError>(pieces@ + rest),
                Err(e) => Err(e),
            },
        decreases n - i,
    {
        if s[i] != OPEN {
            i = i + 1;
        } else {
            let ghost t = s@.subrange(i as int, n as int);
            proof {
                lemma_block_scan_bounds(t, 1, 0);
            }
            match match_block(s, i) {
                Ok(c) => {
                    assert(input.spec_bytes().subrange((i + 1) as int, (i + c) as int) == s@.subrange(
                        i + 1,
                        i + c,
                    ));
                    let cl = match classify_block(input, (i + 1)..(i + c)) {
                        Ok(cl) => cl,
                        Err(e) => return Err(e),
                    };
                    let ghost before = pieces@;
                    let ghost expr = expression_pieces(cl);
                    pieces.push(TemplatePiece::Literal(start..i));
                    push_expression(&mut pieces, cl);
                    proof {
                        let lit = seq![TemplatePiece::Literal(span(start as int, i as int))];
                        assert(pieces@ =~= before + lit + expr);
                        match pieces_from(s@, i + c + 1, i + c + 1) {
                            Ok(rest) => {
                                assert(before + (lit + expr + rest) =~= pieces@ + rest);
                            },
                            Err(e) => {},
                        }
                    }
                    i = i + c + 1;
                    start = i;
                },
                Err(CodeBlockParseError::Escaped) => {
                    i = i + 2;
                },
                Err(CodeBlockParseError::BlockHasNoEnd) => {
                    return Err(TemplateParseError::CodeBlockHasNoEnd { position: i });
                },
                Err(CodeBlockParseError::StrHasNoEnd { start: p }) => {
                    return Err(TemplateParseError::StrHasNoEnd { position: i + p });
                },
            }
        }
    }
    let ghost before = pieces@;
    pieces.push(TemplatePiece::Literal(start..n));
    assert(before + seq![TemplatePiece::Literal(span(start as int, n as int))] =~= pieces@);
    Ok(pieces)
}

} // verus!
