use vstd::prelude::*;

verus! {

/// Opens an expression block; doubled, it stands for itself in literal text.
pub const OPEN: u8 = 0x7b;

/// Closes an expression block.
pub const CLOSE: u8 = 0x7d;

/// Opens and closes a string literal.
pub const QUOTE: u8 = 0x22;

/// Starts a raw string literal when followed by fences and a quote.
pub const RAW_MARKER: u8 = 0x72;

/// Fence character of a raw string literal.
pub const FENCE: u8 = 0x23;

/// Ends a statement inside a block.
pub const STATEMENT_END: u8 = 0x3b;

/// Separates a block's value from its format specifier.
pub const FORMAT_SEPARATOR: u8 = 0x3a;

/// A one-byte whitespace character: tab, line feed, vertical tab, form feed,
/// carriage return (U+0009 to U+000D) and space (U+0020).
pub open spec fn is_ascii_whitespace(b: u8) -> bool {
    b == 0x20 || (0x09 <= b && b <= 0x0d)
}

/// The UTF-8 encoding of a two-byte whitespace character: U+0085 and U+00A0.
pub open spec fn is_two_byte_whitespace(b0: u8, b1: u8) -> bool {
    b0 == 0xc2 && (b1 == 0x85 || b1 == 0xa0)
}

/// The UTF-8 encoding of a three-byte whitespace character: U+1680, U+2000
/// to U+200A, U+2028, U+2029, U+202F, U+205F and U+3000.
pub open spec fn is_three_byte_whitespace(b0: u8, b1: u8, b2: u8) -> bool {
    ||| (b0 == 0xe1 && b1 == 0x9a && b2 == 0x80)
    ||| (b0 == 0xe2 && b1 == 0x80 && ((0x80 <= b2 && b2 <= 0x8a) || b2 == 0xa8 || b2 == 0xa9 || b2 == 0xaf))
    ||| (b0 == 0xe2 && b1 == 0x81 && b2 == 0x9f)
    ||| (b0 == 0xe3 && b1 == 0x80 && b2 == 0x80)
}

/// The length in bytes of the whitespace character whose encoding starts at
/// position `i` of `t`, or 0 when none does. Whitespace is the Unicode
/// White_Space property, which `char::is_whitespace` and `str::trim` go by;
/// the three predicates above list its characters by encoded length.
pub open spec fn whitespace_len_at(t: Seq<u8>, i: int) -> int {
    if i < 0 || i >= t.len() {
        0
    } else if is_ascii_whitespace(t[i]) {
        1
    } else if i + 1 < t.len() && is_two_byte_whitespace(t[i], t[i + 1]) {
        2
    } else if i + 2 < t.len() && is_three_byte_whitespace(t[i], t[i + 1], t[i + 2]) {
        3
    } else {
        0
    }
}

/// The length in bytes of the whitespace character that ends at position `b`
/// of `t` and starts at or after `a`, or 0 when none does. The encodings
/// listed above each end in a byte that no shorter one ends in, so at most
/// one length fits.
pub open spec fn whitespace_len_before(t: Seq<u8>, a: int, b: int) -> int {
    if b - 1 >= a && whitespace_len_at(t, b - 1) == 1 {
        1
    } else if b - 2 >= a && whitespace_len_at(t, b - 2) == 2 {
        2
    } else if b - 3 >= a && whitespace_len_at(t, b - 3) == 3 {
        3
    } else {
        0
    }
}

/// A byte at which a string literal may begin.
pub open spec fn may_start_literal(b: u8) -> bool {
    b == QUOTE || b == RAW_MARKER
}

} // verus!
