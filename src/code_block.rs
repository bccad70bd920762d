use crate::lexeme::{may_start_literal, CLOSE, OPEN, QUOTE, RAW_MARKER};
use crate::str_literal::{lemma_literal_within, scan_str_literal, str_literal_scan, StrLiteralParseError};
use vstd::prelude::*;
use vstd::string::StringSliceAdditionalSpecFns;

verus! {

/// Why no matching close was found for a block.
#[derive(PartialEq, Eq, Debug, Clone, Copy)]
pub enum CodeBlockParseError {
    /// A string literal starting at `start` is never closed.
    StrHasNoEnd { start: usize },
    /// The text ends before the block is closed.
    BlockHasNoEnd,
    /// The opening delimiter is doubled: it stands for itself, no block opens.
    Escaped,
}

/// Matching a block whose opening delimiter is `s[0]`, looking at position `i`
/// with `depth` nested opening delimiters still waiting for their close.
/// String literals are skipped whole; a doubled opening delimiter is an escape.
pub open spec fn block_scan_from(s: Seq<u8>, i: int, depth: nat) -> Result<nat, CodeBlockParseError>
    decreases s.len() - i,
    via block_scan_from_decreases
{
    if i < 1 || i >= s.len() {
        Err(CodeBlockParseError::BlockHasNoEnd)
    } else if s[i] == OPEN {
        if i == 1 {
            Err(CodeBlockParseError::Escaped)
        } else {
            block_scan_from(s, i + 1, depth + 1)
        }
    } else if may_start_literal(s[i]) {
        match str_literal_scan(s.subrange(i, s.len() as int)) {
            Ok(e) => block_scan_from(s, i + e + 1, depth),
            Err(StrLiteralParseError::NoStrFound) => block_scan_from(s, i + 1, depth),
            Err(StrLiteralParseError::StrHasNoEnd { .. }) => Err(
                CodeBlockParseError::StrHasNoEnd { start: i as usize },
            ),
        }
    } else if s[i] == CLOSE {
        if depth == 0 {
            Ok(i as nat)
        } else {
            block_scan_from(s, i + 1, (depth - 1) as nat)
        }
    } else {
        block_scan_from(s, i + 1, depth)
    }
}

#[via_fn]
proof fn block_scan_from_decreases(s: Seq<u8>, i: int, depth: nat) {
    if 1 <= i < s.len() && s[i] != OPEN && may_start_literal(s[i]) {
        lemma_literal_within(s.subrange(i, s.len() as int));
    }
}

/// A close found by the matcher is a closing delimiter past the start, and a
/// literal left open starts past the start too.
pub proof fn lemma_block_scan_bounds(s: Seq<u8>, i: int, depth: nat)
    ensures
        block_scan_from(s, i, depth) matches Ok(c) ==> 1 <= i <= c < s.len() && s[c as int] == CLOSE,
        s.len() <= usize::MAX ==> (block_scan_from(s, i, depth) matches Err(
            CodeBlockParseError::StrHasNoEnd { start },
        ) ==> 1 <= start < s.len()),
    decreases s.len() - i,
{
    if 1 <= i < s.len() {
        if s[i] == OPEN {
            if i != 1 {
                lemma_block_scan_bounds(s, i + 1, depth + 1);
            }
        } else if may_start_literal(s[i]) {
            lemma_literal_within(s.subrange(i, s.len() as int));
            match str_literal_scan(s.subrange(i, s.len() as int)) {
                Ok(e) => lemma_block_scan_bounds(s, i + e + 1, depth),
                Err(StrLiteralParseError::NoStrFound) => lemma_block_scan_bounds(s, i + 1, depth),
                _ => {},
            }
        } else if s[i] == CLOSE {
            if depth != 0 {
                lemma_block_scan_bounds(s, i + 1, (depth - 1) as nat);
            }
        } else {
            lemma_block_scan_bounds(s, i + 1, depth);
        }
    }
}

proof fn lemma_balanced_prefix(s: Seq<u8>, j: int, k: nat, m: nat)
    requires
        2 <= j,
        block_scan_from(s, j, k) is Ok,
    ensures
        block_scan_from(s, j, k + m + 1) == block_scan_from(
            s,
            block_scan_from(s, j, k)->Ok_0 + 1int,
            m,
        ),
    decreases s.len() - j,
{
    if s[j] == OPEN {
        lemma_balanced_prefix(s, j + 1, k + 1, m);
    } else if may_start_literal(s[j]) {
        lemma_literal_within(s.subrange(j, s.len() as int));
        match str_literal_scan(s.subrange(j, s.len() as int)) {
            Ok(e) => lemma_balanced_prefix(s, j + e + 1, k, m),
            Err(StrLiteralParseError::NoStrFound) => lemma_balanced_prefix(s, j + 1, k, m),
            _ => {},
        }
    } else if s[j] == CLOSE {
        if k != 0 {
            assert((k - 1) as nat + m + 1 == k + m);
            lemma_balanced_prefix(s, j + 1, (k - 1) as nat, m);
        }
    } else {
        lemma_balanced_prefix(s, j + 1, k, m);
    }
}

/// A nested block is passed over whole: when the opening delimiter at `i`
/// inside a block is matched at `c`, matching the outer block goes on after
/// `c` at the depth it had before `i`, so it can only close past `c`.
pub proof fn lemma_nested_block_skipped(s: Seq<u8>, i: int, depth: nat)
    requires
        2 <= i < s.len(),
        s[i] == OPEN,
        block_scan_from(s, i + 1, 0) is Ok,
    ensures
        ({
            let c = block_scan_from(s, i + 1, 0)->Ok_0;
            &&& s[c as int] == CLOSE
            &&& block_scan_from(s, i, depth) == block_scan_from(s, c + 1int, depth)
            &&& block_scan_from(s, i, depth) matches Ok(r) ==> c < r
        }),
{
    let c = block_scan_from(s, i + 1, 0)->Ok_0;
    lemma_block_scan_bounds(s, i + 1, 0);
    lemma_balanced_prefix(s, i + 1, 0, depth);
    lemma_block_scan_bounds(s, c + 1int, depth);
}

/// A complete string literal inside a block is passed over whole: braces and
/// quotes in it do not count, and the block can only close past its end.
pub proof fn lemma_literal_skipped(s: Seq<u8>, i: int, depth: nat)
    requires
        1 <= i < s.len(),
        may_start_literal(s[i]),
        str_literal_scan(s.subrange(i, s.len() as int)) is Ok,
    ensures
        ({
            let e = str_literal_scan(s.subrange(i, s.len() as int))->Ok_0;
            &&& block_scan_from(s, i, depth) == block_scan_from(s, i + e + 1, depth)
            &&& block_scan_from(s, i, depth) matches Ok(r) ==> i + e < r
        }),
{
    let e = str_literal_scan(s.subrange(i, s.len() as int))->Ok_0;
    lemma_block_scan_bounds(s, i + e + 1, depth);
}

/// The position of the delimiter closing the block opened by `s[0]`.
pub open spec fn block_scan(s: Seq<u8>) -> Result<nat, CodeBlockParseError> {
    block_scan_from(s, 1, 0)
}

/// `block_scan` of `s` with its result carried over to machine integers.
pub open spec fn block_matches(s: Seq<u8>, r: Result<usize, CodeBlockParseError>) -> bool {
    match r {
        Ok(c) => block_scan(s) == Ok::<nat, CodeBlockParseError>(c as nat),
        Err(err) => block_scan(s) == Err::<nat, CodeBlockParseError>(err),
    }
}

/// Matches the block opened at position `from` of `s`, positions counted from `from`.
pub(crate) fn match_block(s: &[u8], from: usize) -> (r: Result<usize, CodeBlockParseError>)
    requires
        from <= s@.len(),
    ensures
        block_matches(s@.subrange(from as int, s@.len() as int), r),
{
    let ghost t = s@.subrange(from as int, s@.len() as int);
    let n = s.len();
    let mut i: usize = 1;
    let mut depth: usize = 0;
    while i < n - from
        invariant
            n == s@.len(),
            from <= n,
            t == s@.subrange(from as int, n as int),
            1 <= i,
            depth <= i,
            block_scan_from(t, i as int, depth as nat) == block_scan(t),
        decreases n - from - i,
    {
        let b = s[from + i];
        assert(b == t[i as int]);
        if b == OPEN {
            if i == 1 {
                return Err(CodeBlockParseError::Escaped);
            }
            depth = depth + 1;
            i = i + 1;
        } else if b == QUOTE || b == RAW_MARKER {
            let ghost rest = t.subrange(i as int, t.len() as int);
            assert(s@.subrange((from + i) as int, n as int) == rest);
            proof {
                lemma_literal_within(rest);
            }
            match scan_str_literal(s, from + i, n) {
                Ok(e) => {
                    i = i + e + 1;
                },
                Err(StrLiteralParseError::NoStrFound) => {
                    i = i + 1;
                },
                Err(StrLiteralParseError::StrHasNoEnd { .. }) => {
                    return Err(CodeBlockParseError::StrHasNoEnd { start: i });
                },
            }
        } else if b == CLOSE {
            if depth == 0 {
                return Ok(i);
            }
            depth = depth - 1;
            i = i + 1;
        } else {
            i = i + 1;
        }
    }
    Err(CodeBlockParseError::BlockHasNoEnd)
}

/// Finds the delimiter that closes the block opened by the first byte of `input`.
///
/// Nested opening delimiters each need their own close first, and string
/// literals are skipped whole, so braces inside them do not count. A second
/// opening delimiter right after the first is an escape, not a block.
pub fn parse_code_block(input: &str) -> (r: Result<usize, CodeBlockParseError>)
    ensures
        block_matches(input.spec_bytes(), r),
{
    let bytes = input.as_bytes();
    assert(bytes@.subrange(0, bytes@.len() as int) == bytes@);
    match_block(bytes, 0)
}

} // verus!
