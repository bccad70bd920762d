use crate::lexeme::{
    may_start_literal,
    whitespace_len_at, whitespace_len_before, FORMAT_SEPARATOR, QUOTE, RAW_MARKER, STATEMENT_END,
};
use crate::str_literal::{lemma_literal_within, scan_str_literal, str_literal_scan, StrLiteralParseError};
use crate::template::{span, TemplateParseError};
use std::ops::Range;
use vstd::prelude::*;
use vstd::string::StringSliceAdditionalSpecFns;

verus! {

/// A value to print, with the format specifier that applies to it.
#[derive(PartialEq, Eq, Debug)]
pub struct Formattable {
    /// The expression whose value is printed.
    pub expression: Range<usize>,
    /// The format specifier, separator included, when there is one.
    pub format_spec: Option<Range<usize>>,
}

/// What an expression block holds.
#[derive(PartialEq, Eq, Debug)]
pub enum TemplateExpression {
    /// Statements only, up to and including the last statement separator.
    CodeBlock(Range<usize>),
    /// Statements followed by a value.
    CodeBlockWithFormattable(Range<usize>, Formattable),
    /// A value only.
    Formattable(Formattable),
}

/// The last position of `sep` at or after `i` in `s` outside string
/// literals, or `last` when there is none.
pub open spec fn last_top_level(s: Seq<u8>, i: int, sep: u8, last: Option<nat>) -> Option<nat>
    decreases s.len() - i,
    via last_top_level_decreases
{
    if i < 0 || i >= s.len() {
        last
    } else if may_start_literal(s[i]) {
        match str_literal_scan(s.subrange(i, s.len() as int)) {
            Ok(e) => last_top_level(s, i + e + 1, sep, last),
            Err(StrLiteralParseError::NoStrFound) => last_top_level(s, i + 1, sep, last),
            Err(StrLiteralParseError::StrHasNoEnd { .. }) => last,
        }
    } else if s[i] == sep {
        last_top_level(s, i + 1, sep, Some(i as nat))
    } else {
        last_top_level(s, i + 1, sep, last)
    }
}

#[via_fn]
proof fn last_top_level_decreases(s: Seq<u8>, i: int, sep: u8, last: Option<nat>) {
    if 0 <= i < s.len() {
        lemma_literal_within(s.subrange(i, s.len() as int));
    }
}

/// The first position of `sep` at or after `i` in `s` outside string literals.
pub open spec fn first_top_level(s: Seq<u8>, i: int, sep: u8) -> Option<nat>
    decreases s.len() - i,
    via first_top_level_decreases
{
    if i < 0 || i >= s.len() {
        None
    } else if may_start_literal(s[i]) {
        match str_literal_scan(s.subrange(i, s.len() as int)) {
            Ok(e) => first_top_level(s, i + e + 1, sep),
            Err(StrLiteralParseError::NoStrFound) => first_top_level(s, i + 1, sep),
            Err(StrLiteralParseError::StrHasNoEnd { .. }) => None,
        }
    } else if s[i] == sep {
        Some(i as nat)
    } else {
        first_top_level(s, i + 1, sep)
    }
}

#[via_fn]
proof fn first_top_level_decreases(s: Seq<u8>, i: int, sep: u8) {
    if 0 <= i < s.len() {
        lemma_literal_within(s.subrange(i, s.len() as int));
    }
}

/// The start of `[a, b)` of `s` once whitespace characters are dropped
/// from its start.
pub open spec fn trim_start(s: Seq<u8>, a: int, b: int) -> int
    decreases b - a,
{
    let l = whitespace_len_at(s, a);
    if a < b && l > 0 && a + l <= b {
        trim_start(s, a + l, b)
    } else {
        a
    }
}

/// The end of `[a, b)` of `s` once whitespace characters are dropped from
/// its end.
pub open spec fn trim_end(s: Seq<u8>, a: int, b: int) -> int
    decreases b - a,
{
    let l = whitespace_len_before(s, a, b);
    if l > 0 {
        trim_end(s, a, b - l)
    } else {
        b
    }
}

/// The value `[a, b)` of block interior `t`, which begins at offset `base`,
/// split at its first format separator outside string literals. As the value
/// is trimmed, the expression before the separator is empty or whitespace exactly
/// when the separator comes first.
pub open spec fn formattable_of(t: Seq<u8>, a: int, b: int, base: int) -> Result<Formattable, TemplateParseError> {
    match first_top_level(t.subrange(a, b), 0, FORMAT_SEPARATOR) {
        None => Ok(Formattable { expression: span(base + a, base + b), format_spec: None }),
        Some(q) => if q == 0 {
            Err(TemplateParseError::MissingValue { position: (base + a) as usize })
        } else {
            Ok(
                Formattable {
                    expression: span(base + a, base + a + q),
                    format_spec: Some(span(base + a + q, base + b)),
                },
            )
        },
    }
}

/// What block interior `t`, which begins at offset `base`, holds: the
/// statements up to and including the last statement separator outside
/// string literals, and the trimmed rest as value; no value when that rest is
/// whitespace only, and nothing at all for a whitespace-only block.
pub open spec fn classification(t: Seq<u8>, base: int) -> Result<Option<TemplateExpression>, TemplateParseError> {
    match last_top_level(t, 0, STATEMENT_END, None) {
        Some(p) => {
            let a = trim_start(t, p + 1int, t.len() as int);
            let b = trim_end(t, a, t.len() as int);
            let statements = span(base, base + p + 1);
            if a == b {
                Ok(Some(TemplateExpression::CodeBlock(statements)))
            } else {
                match formattable_of(t, a, b, base) {
                    Ok(f) => Ok(Some(TemplateExpression::CodeBlockWithFormattable(statements, f))),
                    Err(e) => Err(e),
                }
            }
        },
        None => {
            let a = trim_start(t, 0, t.len() as int);
            let b = trim_end(t, a, t.len() as int);
            if a == b {
                Ok(None)
            } else {
                match formattable_of(t, a, b, base) {
                    Ok(f) => Ok(Some(TemplateExpression::Formattable(f))),
                    Err(e) => Err(e),
                }
            }
        },
    }
}

/// Positions as mathematical integers.
pub open spec fn opt_nat(p: Option<usize>) -> Option<nat> {
    match p {
        Some(q) => Some(q as nat),
        None => None,
    }
}

/// The last `sep` outside string literals in window `[from, to)` of `s`,
/// counted from `from`.
fn find_last_top_level(s: &[u8], from: usize, to: usize, sep: u8) -> (r: Option<usize>)
    requires
        from <= to <= s@.len(),
        !may_start_literal(sep),
    ensures
        opt_nat(r) == last_top_level(s@.subrange(from as int, to as int), 0, sep, None),
{
    let ghost t = s@.subrange(from as int, to as int);
    let mut i: usize = 0;
    let mut last: Option<usize> = None;
    while i < to - from
        invariant
            from <= to <= s@.len(),
            t == s@.subrange(from as int, to as int),
            last_top_level(t, i as int, sep, opt_nat(last)) == last_top_level(t, 0, sep, None),
        decreases to - from - i,
    {
        let b = s[from + i];
        assert(b == t[i as int]);
        if b == QUOTE || b == RAW_MARKER {
            assert(s@.subrange((from + i) as int, to as int) == t.subrange(i as int, t.len() as int));
            proof {
                lemma_literal_within(t.subrange(i as int, t.len() as int));
            }
            match scan_str_literal(s, from + i, to) {
                Ok(e) => {
                    i = i + e + 1;
                },
                Err(StrLiteralParseError::NoStrFound) => {
                    i = i + 1;
                },
                Err(StrLiteralParseError::StrHasNoEnd { .. }) => {
                    return last;
                },
            }
        } else if b == sep {
            last = Some(i);
            i = i + 1;
        } else {
            i = i + 1;
        }
    }
    last
}

/// The first `sep` outside string literals in window `[from, to)` of `s`,
/// counted from `from`.
fn find_first_top_level(s: &[u8], from: usize, to: usize, sep: u8) -> (r: Option<usize>)
    requires
        from <= to <= s@.len(),
        !may_start_literal(sep),
    ensures
        opt_nat(r) == first_top_level(s@.subrange(from as int, to as int), 0, sep),
{
    let ghost t = s@.subrange(from as int, to as int);
    let mut i: usize = 0;
    while i < to - from
        invariant
            from <= to <= s@.len(),
            t == s@.subrange(from as int, to as int),
            first_top_level(t, i as int, sep) == first_top_level(t, 0, sep),
        decreases to - from - i,
    {
        let b = s[from + i];
        assert(b == t[i as int]);
        if b == QUOTE || b == RAW_MARKER {
            assert(s@.subrange((from + i) as int, to as int) == t.subrange(i as int, t.len() as int));
            proof {
                lemma_literal_within(t.subrange(i as int, t.len() as int));
            }
            match scan_str_literal(s, from + i, to) {
                Ok(e) => {
                    i = i + e + 1;
                },
                Err(StrLiteralParseError::NoStrFound) => {
                    i = i + 1;
                },
                Err(StrLiteralParseError::StrHasNoEnd { .. }) => {
                    return None;
                },
            }
        } else if b == sep {
            return Some(i);
        } else {
            i = i + 1;
        }
    }
    None
}

/// `whitespace_len_at` of position `i` of window `[from, to)` of `s`.
fn whitespace_len(s: &[u8], from: usize, to: usize, i: usize) -> (r: usize)
    requires
        from <= to <= s@.len(),
        i < to - from,
    ensures
        r as int == whitespace_len_at(s@.subrange(from as int, to as int), i as int),
        r <= 3,
{
    let ghost t = s@.subrange(from as int, to as int);
    let rest = to - from - i;
    let b0 = s[from + i];
    assert(t[i as int] == b0);
    if b0 == 0x20 || (0x09 <= b0 && b0 <= 0x0d) {
        return 1;
    }
    if rest >= 2 {
        let b1 = s[from + i + 1];
        assert(t[i + 1] == b1);
        if b0 == 0xc2 && (b1 == 0x85 || b1 == 0xa0) {
            return 2;
        }
    }
    if rest >= 3 {
        let b1 = s[from + i + 1];
        let b2 = s[from + i + 2];
        assert(t[i + 1] == b1 && t[i + 2] == b2);
        if (b0 == 0xe1 && b1 == 0x9a && b2 == 0x80) || (b0 == 0xe2 && b1 == 0x80 && ((0x80 <= b2 && b2
            <= 0x8a) || b2 == 0xa8 || b2 == 0xa9 || b2 == 0xaf)) || (b0 == 0xe2 && b1 == 0x81 && b2
            == 0x9f) || (b0 == 0xe3 && b1 == 0x80 && b2 == 0x80) {
            return 3;
        }
    }
    0
}

/// `whitespace_len_before` over window `[from, to)` of `s`.
fn whitespace_len_ending(s: &[u8], from: usize, to: usize, a: usize, b: usize) -> (r: usize)
    requires
        from <= to <= s@.len(),
        a <= b <= to - from,
    ensures
        r as int == whitespace_len_before(s@.subrange(from as int, to as int), a as int, b as int),
        r <= b - a,
{
    if b - a >= 1 && whitespace_len(s, from, to, b - 1) == 1 {
        1
    } else if b - a >= 2 && whitespace_len(s, from, to, b - 2) == 2 {
        2
    } else if b - a >= 3 && whitespace_len(s, from, to, b - 3) == 3 {
        3
    } else {
        0
    }
}

/// `trim_start` over window `[from, to)` of `s`.
fn trimmed_start(s: &[u8], from: usize, to: usize, a: usize, b: usize) -> (r: usize)
    requires
        from <= to <= s@.len(),
        a <= b <= to - from,
    ensures
        r == trim_start(s@.subrange(from as int, to as int), a as int, b as int),
        a <= r <= b,
{
    let ghost t = s@.subrange(from as int, to as int);
    let mut i = a;
    while i < b
        invariant
            from <= to <= s@.len(),
            a <= i <= b <= to - from,
            t == s@.subrange(from as int, to as int),
            trim_start(t, i as int, b as int) == trim_start(t, a as int, b as int),
        decreases b - i,
    {
        let l = whitespace_len(s, from, to, i);
        if l == 0 || l > b - i {
            return i;
        }
        i = i + l;
    }
    i
}

/// `trim_end` over window `[from, to)` of `s`.
fn trimmed_end(s: &[u8], from: usize, to: usize, a: usize, b: usize) -> (r: usize)
    requires
        from <= to <= s@.len(),
        a <= b <= to - from,
    ensures
        r == trim_end(s@.subrange(from as int, to as int), a as int, b as int),
        a <= r <= b,
{
    let ghost t = s@.subrange(from as int, to as int);
    let mut j = b;
    loop
        invariant
            from <= to <= s@.len(),
            a <= j <= b <= to - from,
            t == s@.subrange(from as int, to as int),
            trim_end(t, a as int, j as int) == trim_end(t, a as int, b as int),
        decreases j - a,
    {
        let l = whitespace_len_ending(s, from, to, a, j);
        if l == 0 {
            return j;
        }
        j = j - l;
    }
}

/// Splits the value `[a, b)` of the block interior `[from, to)` of `s`.
fn split_value(s: &[u8], from: usize, to: usize, a: usize, b: usize) -> (r: Result<Formattable, TemplateParseError>)
    requires
        from <= to <= s@.len(),
        a <= b <= to - from,
    ensures
        r == formattable_of(s@.subrange(from as int, to as int), a as int, b as int, from as int),
{
    let ghost t = s@.subrange(from as int, to as int);
    assert(s@.subrange((from + a) as int, (from + b) as int) == t.subrange(a as int, b as int));
    match find_first_top_level(s, from + a, from + b, FORMAT_SEPARATOR) {
        None => Ok(Formattable { expression: (from + a)..(from + b), format_spec: None }),
        Some(q) => {
            proof {
                lemma_first_top_level_bounds(t.subrange(a as int, b as int), 0, FORMAT_SEPARATOR);
            }
            if q == 0 {
                Err(TemplateParseError::MissingValue { position: from + a })
            } else {
                Ok(
                    Formattable {
                        expression: (from + a)..(from + a + q),
                        format_spec: Some((from + a + q)..(from + b)),
                    },
                )
            }
        },
    }
}

/// A separator found by `first_top_level` lies within `s`.
proof fn lemma_first_top_level_bounds(s: Seq<u8>, i: int, sep: u8)
    ensures
        first_top_level(s, i, sep) matches Some(p) ==> 0 <= i <= p < s.len(),
    decreases s.len() - i,
{
    if 0 <= i < s.len() {
        if may_start_literal(s[i]) {
            lemma_literal_within(s.subrange(i, s.len() as int));
            match str_literal_scan(s.subrange(i, s.len() as int)) {
                Ok(e) => lemma_first_top_level_bounds(s, i + e + 1, sep),
                Err(StrLiteralParseError::NoStrFound) => lemma_first_top_level_bounds(s, i + 1, sep),
                _ => {},
            }
        } else if s[i] != sep {
            lemma_first_top_level_bounds(s, i + 1, sep);
        }
    }
}

/// A separator found by `last_top_level` lies within `s`.
proof fn lemma_last_top_level_bounds(s: Seq<u8>, i: int, sep: u8, last: Option<nat>)
    ensures
        last_top_level(s, i, sep, last) matches Some(p) ==> (last == Some(p) || 0 <= i <= p < s.len()),
    decreases s.len() - i,
{
    if 0 <= i < s.len() {
        if may_start_literal(s[i]) {
            lemma_literal_within(s.subrange(i, s.len() as int));
            match str_literal_scan(s.subrange(i, s.len() as int)) {
                Ok(e) => lemma_last_top_level_bounds(s, i + e + 1, sep, last),
                Err(StrLiteralParseError::NoStrFound) => lemma_last_top_level_bounds(s, i + 1, sep, last),
                _ => {},
            }
        } else if s[i] == sep {
            lemma_last_top_level_bounds(s, i + 1, sep, Some(i as nat));
        } else {
            lemma_last_top_level_bounds(s, i + 1, sep, last);
        }
    }
}

/// Classifies the expression block whose interior is `block` in `input`.
///
/// The statements run up to and including the last `;` outside string
/// literals; the rest, trimmed, is the value. The value splits at its first
/// `:` outside string literals into the expression and the format specifier.
/// `Ok(None)` is a whitespace-only block; a format specifier with no expression before
/// it is `MissingValue` at the separator.
pub fn classify_block(input: &str, block: Range<usize>) -> (r: Result<Option<TemplateExpression>, TemplateParseError>)
    requires
        block.start <= block.end <= input.spec_bytes().len(),
    ensures
        r == classification(
            input.spec_bytes().subrange(block.start as int, block.end as int),
            block.start as int,
        ),
        r matches Err(e) ==> block.start <= e.spec_position() < block.end,
{
    let s = input.as_bytes();
    let from = block.start;
    let to = block.end;
    let len = to - from;
    let ghost t = s@.subrange(from as int, to as int);
    match find_last_top_level(s, from, to, STATEMENT_END) {
        Some(p) => {
            proof {
                lemma_last_top_level_bounds(t, 0, STATEMENT_END, None);
            }
            let a = trimmed_start(s, from, to, p + 1, len);
            let b = trimmed_end(s, from, to, a, len);
            if a == b {
                Ok(Some(TemplateExpression::CodeBlock(from..(from + p + 1))))
            } else {
                match split_value(s, from, to, a, b) {
                    Ok(f) => Ok(Some(TemplateExpression::CodeBlockWithFormattable(from..(from + p + 1), f))),
                    Err(e) => Err(e),
                }
            }
        },
        None => {
            let a = trimmed_start(s, from, to, 0, len);
            let b = trimmed_end(s, from, to, a, len);
            if a == b {
                Ok(None)
            } else {
                match split_value(s, from, to, a, b) {
                    Ok(f) => Ok(Some(TemplateExpression::Formattable(f))),
                    Err(e) => Err(e),
                }
            }
        },
    }
}

} // verus!
