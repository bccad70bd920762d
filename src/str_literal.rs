use crate::lexeme::{FENCE, QUOTE, RAW_MARKER};
use std::ops::Range;
use vstd::string::StringSliceAdditionalSpecFns;
use vstd::prelude::*;

verus! {

/// Why no complete string literal was found at the start of a text.
#[derive(PartialEq, Eq, Debug, Clone, Copy)]
pub enum StrLiteralParseError {
    /// The text does not begin with a string literal.
    NoStrFound,
    /// A literal begins at `start` but the text ends before it is closed.
    StrHasNoEnd { start: usize },
}

/// Number of consecutive fence bytes in `s` from position `i` on.
pub open spec fn fence_run(s: Seq<u8>, i: int) -> nat
    decreases s.len() - i,
{
    if 0 <= i < s.len() && s[i] == FENCE {
        1 + fence_run(s, i + 1)
    } else {
        0
    }
}

/// How a literal opens at the start of `s`: `Some((o, k))` when its opening
/// takes the first `o` bytes and it is closed by a quote followed by `k` fences.
/// A plain literal is a quote; a raw one is the marker, `k` fences and a quote.
pub open spec fn literal_opening(s: Seq<u8>) -> Option<(nat, nat)> {
    let k = fence_run(s, 1);
    if s.len() > 0 && s[0] == QUOTE {
        Some((1, 0))
    } else if s.len() > 0 && s[0] == RAW_MARKER && k + 1 < s.len() && s[k + 1int] == QUOTE {
        Some((k + 2, k))
    } else {
        None
    }
}

/// A quote at `q` that closes a literal opened with `k` fences: followed by
/// exactly `k` fence bytes, so that with `k > 0` a further fence right after
/// them rules it out. With no fences the quote alone closes.
pub open spec fn closes_at(s: Seq<u8>, q: int, k: nat) -> bool {
    &&& 0 <= q
    &&& q + k < s.len()
    &&& s[q] == QUOTE
    &&& forall|j: int| q < j <= q + k ==> s[j] == FENCE
    &&& (k == 0 || q + k + 1 >= s.len() || s[q + k + 1] != FENCE)
}

/// The first position at or after `q` where a closing sequence with `k` fences begins.
pub open spec fn first_close(s: Seq<u8>, q: int, k: nat) -> Option<nat>
    decreases s.len() - q,
{
    if q < 0 || q + k >= s.len() {
        None
    } else if closes_at(s, q, k) {
        Some(q as nat)
    } else {
        first_close(s, q + 1, k)
    }
}

/// `first_close` finds the first closing sequence at or after `q`, if there is one.
pub proof fn lemma_first_close_bounds(s: Seq<u8>, q: int, k: nat)
    requires
        0 <= q,
    ensures
        first_close(s, q, k) matches Some(p) ==> {
            &&& q <= p
            &&& p + k < s.len()
            &&& closes_at(s, p as int, k)
            &&& forall|m: int| q <= m < p ==> !closes_at(s, m, k)
        },
        first_close(s, q, k) is None ==> forall|m: int| q <= m ==> !closes_at(s, m, k),
    decreases s.len() - q,
{
    if 0 <= q && q + k < s.len() && !closes_at(s, q, k) {
        lemma_first_close_bounds(s, q + 1, k);
    }
}

/// A literal found by `str_literal_scan` ends within `s`.
pub proof fn lemma_literal_within(s: Seq<u8>)
    ensures
        str_literal_scan(s) matches Ok(e) ==> e < s.len(),
{
    if let Some((o, k)) = literal_opening(s) {
        lemma_first_close_bounds(s, o as int, k);
    }
}

proof fn lemma_fence_run_exact(s: Seq<u8>, i: int, k: nat)
    requires
        1 <= i <= k + 1 < s.len(),
        forall|j: int| 1 <= j <= k ==> s[j] == FENCE,
        s[k + 1int] == QUOTE,
    ensures
        fence_run(s, i) == k + 1 - i,
    decreases k + 1 - i,
{
    if i <= k {
        lemma_fence_run_exact(s, i + 1, k);
    }
}

/// A raw literal opened with `k` fences ends only at a quote followed by
/// exactly `k` fences: the first such quote after the opening, so that a
/// quote followed by fewer fences, or (with `k > 0`) by more, leaves it open;
/// without such a quote it never closes.
pub proof fn lemma_raw_fence_matching(s: Seq<u8>, k: nat)
    requires
        k + 1 < s.len(),
        s[0] == RAW_MARKER,
        forall|j: int| 1 <= j <= k ==> s[j] == FENCE,
        s[k + 1int] == QUOTE,
    ensures
        literal_opening(s) == Some::<(nat, nat)>((k + 2, k)),
        str_literal_scan(s) matches Ok(e) ==> {
            &&& k + 2 <= e - k
            &&& e < s.len()
            &&& s[e - k] == QUOTE
            &&& forall|j: int| e - k < j <= e ==> s[j] == FENCE
            &&& (k == 0 || e + 1 >= s.len() || s[e + 1int] != FENCE)
            &&& forall|q: int| k + 2 <= q < e - k ==> !closes_at(s, q, k)
        },
        str_literal_scan(s) is Err ==> {
            &&& str_literal_scan(s) == Err::<nat, StrLiteralParseError>(
                StrLiteralParseError::StrHasNoEnd { start: 0 },
            )
            &&& forall|q: int| k + 2 <= q ==> !closes_at(s, q, k)
        },
{
    lemma_fence_run_exact(s, 1, k);
    lemma_first_close_bounds(s, k + 2int, k);
}

/// The literal at the start of `s`: `Ok(e)` when it is complete and `e` is the
/// position of its last byte.
pub open spec fn str_literal_scan(s: Seq<u8>) -> Result<nat, StrLiteralParseError> {
    match literal_opening(s) {
        None => Err(StrLiteralParseError::NoStrFound),
        Some((o, k)) => match first_close(s, o as int, k) {
            Some(q) => Ok(q + k),
            None => Err(StrLiteralParseError::StrHasNoEnd { start: 0 }),
        },
    }
}

/// `str_literal_scan` of `s` with its result carried over to machine integers.
pub open spec fn scan_matches(s: Seq<u8>, r: Result<usize, StrLiteralParseError>) -> bool {
    match r {
        Ok(e) => str_literal_scan(s) == Ok::<nat, StrLiteralParseError>(e as nat),
        Err(err) => str_literal_scan(s) == Err::<nat, StrLiteralParseError>(err),
    }
}

/// `closes_at` of position `q` of window `[from, to)` of `s`.
fn closes_here(s: &[u8], from: usize, to: usize, q: usize, k: usize) -> (r: bool)
    requires
        from <= to <= s@.len(),
        k < to - from,
        q < to - from - k,
    ensures
        r == closes_at(s@.subrange(from as int, to as int), q as int, k as nat),
{
    let ghost t = s@.subrange(from as int, to as int);
    let at = from + q;
    assert(t[q as int] == s@[at as int]);
    if s[at] != QUOTE {
        return false;
    }
    let mut j: usize = 1;
    while j <= k
        invariant
            1 <= j <= k + 1,
            from <= to <= s@.len(),
            at == from + q,
            q + k < to - from,
            t == s@.subrange(from as int, to as int),
            forall|m: int| q < m < q + j ==> t[m] == FENCE,
        decreases k + 1 - j,
    {
        assert(t[q + j] == s@[at + j]);
        if s[at + j] != FENCE {
            return false;
        }
        j = j + 1;
    }
    if k > 0 && q + k + 1 < to - from {
        assert(t[q + k + 1] == s@[at + k + 1]);
        if s[at + k + 1] == FENCE {
            return false;
        }
    }
    true
}

/// Scans the literal at position `from` of the window `[from, to)` of `s`,
/// positions counted from `from`.
pub(crate) fn scan_str_literal(s: &[u8], from: usize, to: usize) -> (r: Result<usize, StrLiteralParseError>)
    requires
        from <= to <= s@.len(),
    ensures
        scan_matches(s@.subrange(from as int, to as int), r),
{
    let ghost t = s@.subrange(from as int, to as int);
    let n = to;
    if from >= n {
        return Err(StrLiteralParseError::NoStrFound);
    }
    let mut open_len: usize = 1;
    let mut fences: usize = 0;
    if s[from] != QUOTE {
        if s[from] != RAW_MARKER {
            return Err(StrLiteralParseError::NoStrFound);
        }
        let mut j: usize = from + 1;
        while j < n && s[j] == FENCE
            invariant
                from < j <= n,
                n <= s@.len(),
                t == s@.subrange(from as int, n as int),
                fence_run(t, 1) == (j - from - 1) + fence_run(t, j - from),
            decreases n - j,
        {
            j = j + 1;
        }
        if j >= n || s[j] != QUOTE {
            return Err(StrLiteralParseError::NoStrFound);
        }
        fences = j - from - 1;
        open_len = fences + 2;
    }
    assert(literal_opening(t) == Some::<(nat, nat)>((open_len as nat, fences as nat)));
    let mut q: usize = open_len;
    while fences < n - (from + q)
        invariant
            n == to,
            n <= s@.len(),
            from < n,
            t == s@.subrange(from as int, n as int),
            open_len <= q,
            from + q <= n,
            fences < n,
            literal_opening(t) == Some::<(nat, nat)>((open_len as nat, fences as nat)),
            first_close(t, open_len as int, fences as nat) == first_close(t, q as int, fences as nat),
        decreases n - q,
    {
        if closes_here(s, from, to, q, fences) {
            return Ok(q + fences);
        }
        q = q + 1;
    }
    Err(StrLiteralParseError::StrHasNoEnd { start: 0 })
}

/// Looks for a string literal at the very start of `input`.
///
/// A plain literal runs from a quote to the next quote. A raw literal is `r`,
/// some fences `#`, a quote, and ends at the first quote followed by exactly
/// as many fences (a quote followed by more does not close it). On success the range starts at 0 and ends at the offset of the
/// literal's last byte.
pub fn parse_str_literal(input: &str) -> (r: Result<Range<usize>, StrLiteralParseError>)
    ensures
        match r {
            Ok(range) => range.start == 0 && str_literal_scan(input.spec_bytes())
                == Ok::<nat, StrLiteralParseError>(range.end as nat),
            Err(err) => str_literal_scan(input.spec_bytes()) == Err::<nat, StrLiteralParseError>(err),
        },
{
    let bytes = input.as_bytes();
    assert(bytes@.subrange(0, bytes@.len() as int) == bytes@);
    match scan_str_literal(bytes, 0, bytes.len()) {
        Ok(end) => Ok(0..end),
        Err(err) => Err(err),
    }
}

} // verus!
