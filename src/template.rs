use crate::code_block::{block_scan, lemma_block_scan_bounds, match_block, CodeBlockParseError};
use crate::lexeme::{CLOSE, OPEN};
use std::ops::Range;
use vstd::prelude::*;
use vstd::string::StringSliceAdditionalSpecFns;

verus! {

/// A document split into literal text and expression blocks.
///
/// Literal fragment `j` comes before block `j`; there is one literal fragment
/// more than there are blocks. Block ranges exclude their delimiters.
#[derive(PartialEq, Eq, Debug)]
pub struct ParseResult {
    pub code_block_fragment_ranges: Vec<Range<usize>>,
    pub template_fragment_ranges: Vec<Range<usize>>,
}

/// Why a document could not be split; positions are byte offsets into it.
#[derive(PartialEq, Eq, Debug, Clone, Copy)]
pub enum TemplateParseError {
    /// The block opened at `position` is never closed.
    CodeBlockHasNoEnd { position: usize },
    /// The string literal starting at `position` is never closed.
    StrHasNoEnd { position: usize },
    /// The format specifier at `position` has no expression before it.
    MissingValue { position: usize },
}

impl TemplateParseError {
    /// The byte offset the error points to.
    pub open spec fn spec_position(self) -> usize {
        match self {
            TemplateParseError::CodeBlockHasNoEnd { position } => position,
            TemplateParseError::StrHasNoEnd { position } => position,
            TemplateParseError::MissingValue { position } => position,
        }
    }
}

/// The range `[a, b)`.
pub open spec fn span(a: int, b: int) -> Range<usize> {
    Range { start: a as usize, end: b as usize }
}

/// The literal ranges and the block ranges of a split document.
pub type Fragments = (Seq<Range<usize>>, Seq<Range<usize>>);

/// Splitting `s` from position `i` on, with the current literal fragment
/// starting at `start`.
pub open spec fn template_scan_from(s: Seq<u8>, i: int, start: int) -> Result<Fragments, TemplateParseError>
    decreases s.len() - i,
    via template_scan_from_decreases
{
    if i < 0 || i >= s.len() {
        Ok((seq![span(start, s.len() as int)], Seq::empty()))
    } else if s[i] != OPEN {
        template_scan_from(s, i + 1, start)
    } else {
        match block_scan(s.subrange(i, s.len() as int)) {
            Ok(c) => match template_scan_from(s, i + c + 1, i + c + 1) {
                Ok((lits, blocks)) => Ok(
                    (seq![span(start, i)] + lits, seq![span(i + 1, i + c)] + blocks),
                ),
                Err(e) => Err(e),
            },
            Err(CodeBlockParseError::Escaped) => template_scan_from(s, i + 2, start),
            Err(CodeBlockParseError::BlockHasNoEnd) => Err(
                TemplateParseError::CodeBlockHasNoEnd { position: i as usize },
            ),
            Err(CodeBlockParseError::StrHasNoEnd { start: p }) => Err(
                TemplateParseError::StrHasNoEnd { position: (i + p) as usize },
            ),
        }
    }
}

#[via_fn]
proof fn template_scan_from_decreases(s: Seq<u8>, i: int, start: int) {
    if 0 <= i < s.len() && s[i] == OPEN {
        lemma_block_scan_bounds(s.subrange(i, s.len() as int), 1, 0);
    }
}

/// The split of a whole document.
pub open spec fn template_scan(s: Seq<u8>) -> Result<Fragments, TemplateParseError> {
    template_scan_from(s, 0, 0)
}

/// How the fragments of a split sit in `s`, the first literal fragment
/// starting at `from`: literal fragment `j` ends at the delimiter opening block
/// `j`, block `j` ends at its closing delimiter, and literal fragment `j + 1`
/// starts right after it; the last literal fragment ends with the document.
pub open spec fn laid_out(s: Seq<u8>, lits: Seq<Range<usize>>, blocks: Seq<Range<usize>>, from: int) -> bool {
    &&& lits.len() == blocks.len() + 1
    &&& lits[0].start == from
    &&& lits.last().end == s.len()
    &&& forall|j: int| 0 <= j < lits.len() ==> lits[j].start <= lits[j].end
    &&& forall|j: int|
        0 <= j < blocks.len() ==> {
            &&& lits[j].end + 1 == blocks[j].start
            &&& blocks[j].start <= blocks[j].end
            &&& blocks[j].end + 1 == lits[j + 1].start
            &&& s[lits[j].end as int] == OPEN
            &&& s[blocks[j].end as int] == CLOSE
        }
}

/// The document rebuilt from its fragments: each literal fragment as it
/// stands, each block between its delimiters.
pub open spec fn reassemble(s: Seq<u8>, lits: Seq<Range<usize>>, blocks: Seq<Range<usize>>) -> Seq<u8>
    decreases blocks.len(),
{
    if lits.len() == 0 {
        Seq::empty()
    } else if blocks.len() == 0 {
        s.subrange(lits[0].start as int, lits[0].end as int)
    } else {
        s.subrange(lits[0].start as int, lits[0].end as int) + seq![OPEN] + s.subrange(
            blocks[0].start as int,
            blocks[0].end as int,
        ) + seq![CLOSE] + reassemble(s, lits.drop_first(), blocks.drop_first())
    }
}

proof fn lemma_scan_from_laid_out(s: Seq<u8>, i: int, start: int)
    requires
        s.len() <= usize::MAX,
        0 <= start <= i <= s.len(),
    ensures
        template_scan_from(s, i, start) matches Ok((lits, blocks)) ==> {
            &&& laid_out(s, lits, blocks, start)
            &&& reassemble(s, lits, blocks) == s.subrange(start, s.len() as int)
        },
    decreases s.len() - i,
{
    if i < s.len() {
        if s[i] != OPEN {
            lemma_scan_from_laid_out(s, i + 1, start);
        } else {
            let t = s.subrange(i, s.len() as int);
            lemma_block_scan_bounds(t, 1, 0);
            match block_scan(t) {
                Ok(c) => {
                    let next = i + c + 1;
                    lemma_scan_from_laid_out(s, next, next);
                    if let Ok((l, b)) = template_scan_from(s, next, next) {
                        let lits = seq![span(start, i)] + l;
                        let blocks = seq![span(i + 1, i + c)] + b;
                        assert(t[c as int] == CLOSE);
                        assert(lits.drop_first() =~= l);
                        assert(blocks.drop_first() =~= b);
                        assert(lits.last() == l.last());
                        assert forall|j: int| 0 <= j < lits.len() implies lits[j].start <= lits[j].end by {
                            if j > 0 {
                                assert(lits[j] == l[j - 1]);
                            }
                        }
                        assert forall|j: int| 0 <= j < blocks.len() implies {
                            &&& lits[j].end + 1 == blocks[j].start
                            &&& blocks[j].start <= blocks[j].end
                            &&& blocks[j].end + 1 == lits[j + 1].start
                            &&& s[lits[j].end as int] == OPEN
                            &&& s[blocks[j].end as int] == CLOSE
                        } by {
                            if j > 0 {
                                assert(lits[j] == l[j - 1]);
                                assert(blocks[j] == b[j - 1]);
                                assert(lits[j + 1] == l[j]);
                            }
                        }
                        assert(reassemble(s, lits, blocks) == s.subrange(start, i) + seq![OPEN]
                            + s.subrange(i + 1, i + c) + seq![CLOSE] + s.subrange(next, s.len() as int));
                        assert(s.subrange(start, s.len() as int) =~= s.subrange(start, i) + seq![OPEN]
                            + s.subrange(i + 1, i + c) + seq![CLOSE] + s.subrange(next, s.len() as int));
                    }
                },
                Err(CodeBlockParseError::Escaped) => {
                    lemma_scan_from_laid_out(s, i + 2, start);
                },
                _ => {},
            }
        }
    }
}

/// A split document is its fragments and nothing else: literal fragments and
/// block interiors, put back together in order with the delimiters of each
/// block restored, give the document again.
pub proof fn lemma_round_trip(s: Seq<u8>)
    requires
        s.len() <= usize::MAX,
    ensures
        template_scan(s) matches Ok((lits, blocks)) ==> reassemble(s, lits, blocks) == s,
{
    lemma_scan_from_laid_out(s, 0, 0);
    assert(s.subrange(0, s.len() as int) =~= s);
}

proof fn lemma_literal_chain(s: Seq<u8>, lits: Seq<Range<usize>>, blocks: Seq<Range<usize>>, j: int, k: int)
    requires
        laid_out(s, lits, blocks, 0),
        0 <= j < k < lits.len(),
    ensures
        lits[j].end < blocks[j].start <= blocks[j].end < lits[k].start,
    decreases k - j,
{
    assert(lits[j].end + 1 == blocks[j].start && blocks[j].start <= blocks[j].end);
    assert(blocks[k - 1].end + 1 == lits[k].start);
    if k > j + 1 {
        lemma_literal_chain(s, lits, blocks, j, k - 1);
        assert(lits[k - 1].start <= lits[k - 1].end);
        assert(lits[k - 1].end + 1 == blocks[k - 1].start && blocks[k - 1].start <= blocks[k - 1].end);
    }
}

/// The ranges of a split never overlap and come in document order: literal
/// fragment `j`, then block `j`, then literal fragment `j + 1`, and so on.
pub proof fn lemma_fragments_ordered(s: Seq<u8>)
    requires
        s.len() <= usize::MAX,
    ensures
        template_scan(s) matches Ok((lits, blocks)) ==> {
            &&& lits.len() == blocks.len() + 1
            &&& lits[0].start == 0
            &&& lits.last().end == s.len()
            &&& forall|j: int| 0 <= j < lits.len() ==> lits[j].start <= lits[j].end
            &&& forall|j: int| 0 <= j < blocks.len() ==> blocks[j].start <= blocks[j].end
            &&& forall|j: int, k: int| 0 <= j < k < lits.len() ==> lits[j].end < lits[k].start
            &&& forall|j: int, k: int| 0 <= j < k < blocks.len() ==> blocks[j].end < blocks[k].start
            &&& forall|j: int, k: int| 0 <= j <= k < blocks.len() ==> lits[j].end < blocks[k].start
            &&& forall|j: int, k: int| 0 <= k < j < lits.len() ==> blocks[k].end < lits[j].start
        },
{
    lemma_scan_from_laid_out(s, 0, 0);
    if let Ok((lits, blocks)) = template_scan(s) {
        assert forall|j: int, k: int| 0 <= j < k < lits.len() implies lits[j].end < lits[k].start by {
            lemma_literal_chain(s, lits, blocks, j, k);
        }
        assert forall|j: int, k: int| 0 <= j < k < blocks.len() implies blocks[j].end < blocks[k].start by {
            lemma_literal_chain(s, lits, blocks, j, k);
        }
        assert forall|j: int, k: int| 0 <= j <= k < blocks.len() implies lits[j].end < blocks[k].start by {
            if j < k {
                lemma_literal_chain(s, lits, blocks, j, k);
            }
        }
        assert forall|j: int, k: int| 0 <= k < j < lits.len() implies blocks[k].end < lits[j].start by {
            lemma_literal_chain(s, lits, blocks, k, j);
        }
    }
}

/// Splits `input` into literal fragments and expression blocks.
///
/// An opening delimiter followed by another is an escape and stays in the
/// literal text. Any other opening delimiter starts a block, which ends at its
/// matching close (see `parse_code_block`); the first block or string literal
/// that never closes is reported.
pub fn parse_template(input: &str) -> (r: Result<ParseResult, TemplateParseError>)
    ensures
        match r {
            Ok(res) => template_scan(input.spec_bytes()) == Ok::<Fragments, TemplateParseError>(
                (res.template_fragment_ranges@, res.code_block_fragment_ranges@),
            ),
            Err(e) => {
                &&& template_scan(input.spec_bytes()) == Err::<Fragments, TemplateParseError>(e)
                &&& e.spec_position() < input.spec_bytes().len()
            },
        },
{
    let s = input.as_bytes();
    let n = s.len();
    let mut lits: Vec<Range<usize>> = Vec::new();
    let mut blocks: Vec<Range<usize>> = Vec::new();
    let mut i: usize = 0;
    let mut start: usize = 0;
    while i < n
        invariant
            n == s@.len(),
            s@ == input.spec_bytes(),
            start <= i <= n,
            template_scan(s@) == match template_scan_from(s@, i as int, start as int) {
                Ok((l, b)) => Ok::<Fragments, TemplateParseError>((lits@ + l, blocks@ + b)),
                Err(e) => Err(e),
            },
        decreases n - i,
    {
        if s[i] != OPEN {
            i = i + 1;
        } else {
            let ghost t = s@.subrange(i as int, n as int);
            proof {
                lemma_block_scan_bounds(t, 1, 0);
            }
            match match_block(s, i) {
                Ok(c) => {
                    let ghost old_lits = lits@;
                    let ghost old_blocks = blocks@;
                    lits.push(start..i);
                    blocks.push((i + 1)..(i + c));
                    proof {
                        match template_scan_from(s@, i + c + 1, i + c + 1) {
                            Ok((l, b)) => {
                                assert(old_lits + (seq![span(start as int, i as int)] + l) =~= lits@ + l);
                                assert(old_blocks + (seq![span(i + 1, i + c)] + b) =~= blocks@ + b);
                            },
                            Err(e) => {},
                        }
                    }
                    i = i + c + 1;
                    start = i;
                },
                Err(CodeBlockParseError::Escaped) => {
                    i = i + 2;
                },
                Err(CodeBlockParseError::BlockHasNoEnd) => {
                    return Err(TemplateParseError::CodeBlockHasNoEnd { position: i });
                },
                Err(CodeBlockParseError::StrHasNoEnd { start: p }) => {
                    return Err(TemplateParseError::StrHasNoEnd { position: i + p });
                },
            }
        }
    }
    let ghost old_lits = lits@;
    lits.push(start..n);
    assert(old_lits + seq![span(start as int, n as int)] =~= lits@);
    assert(blocks@ + Seq::<Range<usize>>::empty() =~= blocks@);
    Ok(ParseResult { code_block_fragment_ranges: blocks, template_fragment_ranges: lits })
}

/// Literal text as it reads once each doubled opening delimiter, taken from
/// the left, stands for a single one.
pub open spec fn unescape(t: Seq<u8>) -> Seq<u8>
    decreases t.len(),
{
    if t.len() == 0 {
        Seq::empty()
    } else if t.len() >= 2 && t[0] == OPEN && t[1] == OPEN {
        seq![OPEN] + unescape(t.subrange(2, t.len() as int))
    } else {
        seq![t[0]] + unescape(t.subrange(1, t.len() as int))
    }
}

/// The bytes of the literal fragment `fragment` of `input` as they are to be
/// output: each doubled opening delimiter becomes a single one.
pub fn render_literal_fragment(input: &str, fragment: Range<usize>) -> (r: Vec<u8>)
    requires
        fragment.start <= fragment.end <= input.spec_bytes().len(),
    ensures
        r@ == unescape(input.spec_bytes().subrange(fragment.start as int, fragment.end as int)),
{
    let s = input.as_bytes();
    let ghost t = s@.subrange(fragment.start as int, fragment.end as int);
    let mut out: Vec<u8> = Vec::new();
    let mut i = fragment.start;
    let end = fragment.end;
    assert(t.subrange(0, t.len() as int) =~= t);
    while i < end
        invariant
            fragment.start <= i <= end <= s@.len(),
            t == s@.subrange(fragment.start as int, end as int),
            unescape(t) == out@ + unescape(s@.subrange(i as int, end as int)),
        decreases end - i,
    {
        let ghost rest = s@.subrange(i as int, end as int);
        if i + 1 < end && s[i] == OPEN && s[i + 1] == OPEN {
            assert(rest.subrange(2, rest.len() as int) =~= s@.subrange(i + 2, end as int));
            assert(out@ + (seq![OPEN] + unescape(rest.subrange(2, rest.len() as int))) =~= out@.push(OPEN)
                + unescape(s@.subrange(i + 2, end as int)));
            out.push(OPEN);
            i = i + 2;
        } else {
            let b = s[i];
            assert(rest.subrange(1, rest.len() as int) =~= s@.subrange(i + 1, end as int));
            assert(out@ + (seq![b] + unescape(rest.subrange(1, rest.len() as int))) =~= out@.push(b)
                + unescape(s@.subrange(i + 1, end as int)));
            out.push(b);
            i = i + 1;
        }
    }
    assert(unescape(s@.subrange(i as int, end as int)) =~= Seq::<u8>::empty());
    assert(out@ + Seq::<u8>::empty() =~= out@);
    out
}

/// Whether `t` holds a doubled opening delimiter.
pub open spec fn has_escape(t: Seq<u8>) -> bool {
    exists|j: int| 0 <= j && j + 1 < t.len() && #[trigger] t[j] == OPEN && t[j + 1] == OPEN
}

/// The document as it reads: each literal fragment with its escapes
/// resolved, each block between its delimiters.
pub open spec fn render_document(s: Seq<u8>, lits: Seq<Range<usize>>, blocks: Seq<Range<usize>>) -> Seq<u8>
    decreases blocks.len(),
{
    if lits.len() == 0 {
        Seq::empty()
    } else if blocks.len() == 0 {
        unescape(s.subrange(lits[0].start as int, lits[0].end as int))
    } else {
        unescape(s.subrange(lits[0].start as int, lits[0].end as int)) + seq![OPEN] + s.subrange(
            blocks[0].start as int,
            blocks[0].end as int,
        ) + seq![CLOSE] + render_document(s, lits.drop_first(), blocks.drop_first())
    }
}

proof fn lemma_unescape_identity(t: Seq<u8>)
    requires
        !has_escape(t),
    ensures
        unescape(t) == t,
    decreases t.len(),
{
    if t.len() > 0 {
        if t.len() >= 2 && t[0] == OPEN && t[1] == OPEN {
            assert(has_escape(t));
        }
        let r = t.subrange(1, t.len() as int);
        assert(!has_escape(r)) by {
            if has_escape(r) {
                let j = choose|j: int| 0 <= j && j + 1 < r.len() && #[trigger] r[j] == OPEN && r[j + 1] == OPEN;
                assert(t[j + 1] == OPEN && t[j + 2] == OPEN);
            }
        }
        lemma_unescape_identity(r);
        assert(seq![t[0]] + r =~= t);
    }
}

proof fn lemma_render_without_escapes(s: Seq<u8>, lits: Seq<Range<usize>>, blocks: Seq<Range<usize>>)
    requires
        forall|j: int| 0 <= j < lits.len() ==> !has_escape(s.subrange(lits[j].start as int, lits[j].end as int)),
    ensures
        render_document(s, lits, blocks) == reassemble(s, lits, blocks),
    decreases blocks.len(),
{
    if lits.len() > 0 {
        lemma_unescape_identity(s.subrange(lits[0].start as int, lits[0].end as int));
        if blocks.len() > 0 {
            let rest = lits.drop_first();
            assert forall|j: int| 0 <= j < rest.len() implies !has_escape(
                s.subrange(rest[j].start as int, rest[j].end as int),
            ) by {
                assert(rest[j] == lits[j + 1]);
            }
            lemma_render_without_escapes(s, rest, blocks.drop_first());
        }
    }
}

/// Where no literal fragment holds an escaped delimiter, the rendered
/// document is the document itself: literal fragments as they read, and
/// block interiors between restored delimiters, put together in order.
pub proof fn lemma_round_trip_rendered(s: Seq<u8>)
    requires
        s.len() <= usize::MAX,
    ensures
        template_scan(s) matches Ok((lits, blocks)) ==> (
        (forall|j: int|
            0 <= j < lits.len() ==> !has_escape(s.subrange(lits[j].start as int, lits[j].end as int)))
            ==> render_document(s, lits, blocks) == s),
{
    lemma_round_trip(s);
    if let Ok((lits, blocks)) = template_scan(s) {
        if forall|j: int|
            0 <= j < lits.len() ==> !has_escape(s.subrange(lits[j].start as int, lits[j].end as int)) {
            lemma_render_without_escapes(s, lits, blocks);
        }
    }
}

} // verus!
