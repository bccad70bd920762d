use crate::template::{span, TemplateParseError};
use std::ops::Range;
use std::path::PathBuf;
use vstd::prelude::*;
use vstd::string::{StrSliceExecFns, StringExecFns, StringSliceAdditionalSpecFns};
use vstd::utf8::{decode_utf8, is_char_boundary, valid_utf8};

verus! {

broadcast use vstd::utf8::group_utf8_lib;

/// Declares std's `PathBuf` so that an error can carry the template's path;
/// nothing of its value is read here.
#[verifier::external_type_specification]
#[verifier::external_body]
pub struct ExPathBuf(PathBuf);

/// The most bytes of context shown on each side of an erroneous character.
pub const TEMPLATE_POINTER_PADDING: usize = 20;

/// What went wrong at the position an error points to.
#[derive(PartialEq, Eq, Debug, Clone, Copy)]
pub enum TemplateErrorKind {
    /// A block or string literal opened there is never closed.
    ClosingToken,
    /// A format specifier there has no value to format.
    MissingValue,
}

impl TemplateErrorKind {
    /// The words that introduce an error of this kind.
    pub fn description(&self) -> (r: &'static str)
        ensures
            r@ == match self {
                TemplateErrorKind::ClosingToken => "Failed to find closing token for"@,
                TemplateErrorKind::MissingValue => "The format expression misses a value -"@,
            },
    {
        match self {
            TemplateErrorKind::ClosingToken => "Failed to find closing token for",
            TemplateErrorKind::MissingValue => "The format expression misses a value -",
        }
    }
}

/// An error in a template: the byte range it points to, the template's path
/// and text, and its kind.
#[derive(Debug)]
pub struct TemplateError<'a>(pub Range<usize>, pub &'a PathBuf, pub &'a str, pub TemplateErrorKind);

impl TemplateParseError {
    /// The error in `template`, read from `template_path`, pointing at the
    /// one byte where this parse error was found.
    pub fn into<'a>(self, template_path: &'a PathBuf, template: &'a str) -> (r: TemplateError<'a>)
        requires
            self.spec_position() < template.spec_bytes().len(),
        ensures
            r.0 == span(self.spec_position() as int, self.spec_position() + 1),
            r.1 == template_path,
            r.2 == template,
            r.3 == match self {
                TemplateParseError::MissingValue { .. } => TemplateErrorKind::MissingValue,
                _ => TemplateErrorKind::ClosingToken,
            },
            r.wf(),
    {
        let n = template.as_bytes().len();
        let (position, kind) = match self {
            TemplateParseError::CodeBlockHasNoEnd { position } => (position, TemplateErrorKind::ClosingToken),
            TemplateParseError::StrHasNoEnd { position } => (position, TemplateErrorKind::ClosingToken),
            TemplateParseError::MissingValue { position } => (position, TemplateErrorKind::MissingValue),
        };
        TemplateError(position..(position + 1), template_path, template, kind)
    }
}

/// The largest character boundary of `b` at or below `i`.
pub open spec fn floor_boundary(b: Seq<u8>, i: int) -> int
    decreases i,
{
    if i <= 0 || is_char_boundary(b, i) {
        i
    } else {
        floor_boundary(b, i - 1)
    }
}

/// The smallest character boundary of `b` at or above `i`.
pub open spec fn ceil_boundary(b: Seq<u8>, i: int) -> int
    decreases b.len() - i,
{
    if i >= b.len() || is_char_boundary(b, i) {
        i
    } else {
        ceil_boundary(b, i + 1)
    }
}

/// The text of bytes `[a, b)` of `t`, widened or narrowed to whole characters
/// (see the slicing methods of `TemplateError`).
pub open spec fn text_between(t: Seq<u8>, a: int, b: int) -> Seq<char> {
    decode_utf8(t.subrange(a, b))
}

/// The text of a string as `Debug` shows it: quoted, special characters escaped.
pub uninterp spec fn debug_text(s: Seq<char>) -> Seq<char>;

/// Relies on std's `Debug` for `str`, which writes the text between double
/// quotes with special characters escaped.
#[verifier::external_body]
fn quoted_debug(s: &str) -> (r: String)
    ensures
        r@ == debug_text(s@),
        r@.len() >= 2,
        r@[0] == '"',
        r@.last() == '"',
{
    format!("{:?}", s)
}

/// The largest character boundary of `s` at or below `i`.
fn floor_char_boundary(s: &str, i: usize) -> (r: usize)
    requires
        i <= s.spec_bytes().len(),
    ensures
        r as int == floor_boundary(s.spec_bytes(), i as int),
        r <= i,
        is_char_boundary(s.spec_bytes(), r as int),
{
    let mut j = i;
    while j > 0 && !s.is_char_boundary(j)
        invariant
            j <= i <= s.spec_bytes().len(),
            valid_utf8(s.spec_bytes()),
            floor_boundary(s.spec_bytes(), j as int) == floor_boundary(s.spec_bytes(), i as int),
        decreases j,
    {
        j = j - 1;
    }
    j
}

/// The smallest character boundary of `s` at or above `i`.
fn ceil_char_boundary(s: &str, i: usize) -> (r: usize)
    requires
        i <= s.spec_bytes().len(),
    ensures
        r as int == ceil_boundary(s.spec_bytes(), i as int),
        i <= r <= s.spec_bytes().len(),
        is_char_boundary(s.spec_bytes(), r as int),
{
    let n = s.as_bytes().len();
    let mut j = i;
    while j < n && !s.is_char_boundary(j)
        invariant
            i <= j <= n,
            n == s.spec_bytes().len(),
            valid_utf8(s.spec_bytes()),
            ceil_boundary(s.spec_bytes(), j as int) == ceil_boundary(s.spec_bytes(), i as int),
        decreases n - j,
    {
        j = j + 1;
    }
    j
}

/// Bytes `[a, b)` of `s`, both ends character boundaries.
fn byte_slice(s: &str, a: usize, b: usize) -> (r: &str)
    requires
        a <= b <= s.spec_bytes().len(),
        is_char_boundary(s.spec_bytes(), a as int),
        is_char_boundary(s.spec_bytes(), b as int),
    ensures
        r.spec_bytes() == s.spec_bytes().subrange(a as int, b as int),
        r@ == text_between(s.spec_bytes(), a as int, b as int),
{
    let (_, rest) = s.split_at(a);
    let ghost bytes = s.spec_bytes();
    proof {
        let rb = rest.spec_bytes();
        assert(valid_utf8(rb));
        assert(valid_utf8(bytes));
        assert(rb.len() == bytes.len() - a);
        if b < bytes.len() {
            assert(rb[b - a] == bytes[b as int]);
            vstd::utf8::is_char_boundary_iff_not_is_continuation_byte(bytes, b as int);
            vstd::utf8::is_char_boundary_iff_not_is_continuation_byte(rb, b - a);
        } else {
            vstd::utf8::is_char_boundary_start_end_of_seq(rb);
        }
    }
    let (mid, _) = rest.split_at(b - a);
    assert(mid.spec_bytes() =~= bytes.subrange(a as int, b as int));
    mid
}

impl<'a> TemplateError<'a> {
    /// The range lies within the template.
    pub open spec fn wf(&self) -> bool {
        self.0.start <= self.0.end <= self.2.spec_bytes().len()
    }

    /// Where the context before the error starts: at most the padding before
    /// it, moved forward to a character boundary.
    pub open spec fn left_bounds(&self) -> (int, int) {
        let t = self.2.spec_bytes();
        let hi = floor_boundary(t, self.0.start as int);
        let wide = if self.0.start >= TEMPLATE_POINTER_PADDING {
            self.0.start - TEMPLATE_POINTER_PADDING
        } else {
            0
        };
        let lo = ceil_boundary(t, wide as int);
        (if lo <= hi { lo } else { hi }, hi)
    }

    /// Where the context after the error ends: at most the padding after it,
    /// moved back to a character boundary.
    pub open spec fn right_bounds(&self) -> (int, int) {
        let t = self.2.spec_bytes();
        let lo = ceil_boundary(t, self.0.end as int);
        let wide = if t.len() - self.0.end > TEMPLATE_POINTER_PADDING {
            self.0.end + TEMPLATE_POINTER_PADDING
        } else {
            t.len() as int
        };
        let hi = floor_boundary(t, wide);
        (lo, if lo <= hi { hi } else { lo })
    }

    /// The context before the error, as `Debug` shows it.
    pub open spec fn spec_left_slice(&self) -> Seq<char> {
        debug_text(text_between(self.2.spec_bytes(), self.left_bounds().0, self.left_bounds().1))
    }

    /// The context after the error, as `Debug` shows it.
    pub open spec fn spec_right_slice(&self) -> Seq<char> {
        debug_text(text_between(self.2.spec_bytes(), self.right_bounds().0, self.right_bounds().1))
    }

    /// The erroneous text, escaped as `Debug` does, without the quotes.
    pub open spec fn spec_erroneous_character(&self) -> Seq<char> {
        let t = self.2.spec_bytes();
        let d = debug_text(text_between(t, floor_boundary(t, self.0.start as int), ceil_boundary(t, self.0.end as int)));
        d.subrange(1, d.len() - 1)
    }

    /// The context before the error: the text of up to the padding's worth of
    /// bytes before it, in whole characters, quoted and escaped as `Debug` does.
    pub fn left_erroneous_slice(&self) -> (r: String)
        requires
            self.wf(),
        ensures
            r@ == self.spec_left_slice(),
            r@.len() >= 2,
    {
        let t = self.2;
        let start = self.0.start;
        let hi = floor_char_boundary(t, start);
        let wide = if start >= TEMPLATE_POINTER_PADDING {
            start - TEMPLATE_POINTER_PADDING
        } else {
            0
        };
        let mut lo = ceil_char_boundary(t, wide);
        if lo > hi {
            lo = hi;
        }
        quoted_debug(byte_slice(t, lo, hi))
    }

    /// The context after the error: the text of up to the padding's worth of
    /// bytes after it, in whole characters, quoted and escaped as `Debug` does.
    pub fn right_erroneous_slice(&self) -> (r: String)
        requires
            self.wf(),
        ensures
            r@ == self.spec_right_slice(),
            r@.len() >= 2,
    {
        let t = self.2;
        let end = self.0.end;
        let n = t.as_bytes().len();
        let lo = ceil_char_boundary(t, end);
        let wide = if n - end > TEMPLATE_POINTER_PADDING {
            end + TEMPLATE_POINTER_PADDING
        } else {
            n
        };
        let mut hi = floor_char_boundary(t, wide);
        if lo > hi {
            hi = lo;
        }
        quoted_debug(byte_slice(t, lo, hi))
    }

    /// The erroneous text, widened to whole characters and escaped as `Debug`
    /// does, without the surrounding quotes.
    pub fn erroneous_character(&self) -> (r: String)
        requires
            self.wf(),
        ensures
            r@ == self.spec_erroneous_character(),
    {
        let t = self.2;
        let lo = floor_char_boundary(t, self.0.start);
        let hi = ceil_char_boundary(t, self.0.end);
        let quoted = quoted_debug(byte_slice(t, lo, hi));
        unquote(quoted.as_str())
    }

    /// The error in its context, and a caret line pointing at it.
    pub fn erroneous_window(&self) -> (r: (String, String))
        requires
            self.wf(),
        ensures
            r.0@ == window_line(self.spec_left_slice(), self.spec_erroneous_character(), self.spec_right_slice()),
            r.1@ == pointer_line(self.spec_left_slice(), self.spec_right_slice()),
    {
        let left = self.left_erroneous_slice();
        let right = self.right_erroneous_slice();
        let character = self.erroneous_character();
        context_window(left.as_str(), character.as_str(), right.as_str())
    }
}

/// How many characters of context each side of the window shows, plus one:
/// as many as the narrower of the quoted sides `left` and `right` has.
pub open spec fn window_width(left: Seq<char>, right: Seq<char>) -> int {
    if left.len() <= right.len() {
        left.len() - 1
    } else {
        right.len() - 1
    }
}

/// The line showing `character` in its context: the same number of
/// characters of the quoted `left` and `right` on each side of it, as many as
/// the narrower side has, without the quotes.
pub open spec fn window_line(left: Seq<char>, character: Seq<char>, right: Seq<char>) -> Seq<char> {
    let w = window_width(left, right);
    left.subrange(left.len() - w, left.len() - 1) + character + right.subrange(1, w)
}

/// The line under it: a caret under the character, one column further right
/// for the quote that opens the line above.
pub open spec fn pointer_line(left: Seq<char>, right: Seq<char>) -> Seq<char> {
    Seq::new(window_width(left, right) as nat, |_i: int| ' ').push('^')
}

/// `s` without its first and last characters.
pub fn unquote(s: &str) -> (r: String)
    requires
        s@.len() >= 2,
    ensures
        r@ == s@.subrange(1, s@.len() - 1),
{
    let len = s.unicode_len();
    String::from_str(s.substring_char(1, len - 1))
}

/// Puts `character` between the quoted contexts `left` and `right`, cut to the
/// same width, and draws a caret line under it.
pub fn context_window(left: &str, character: &str, right: &str) -> (r: (String, String))
    requires
        left@.len() >= 2,
        right@.len() >= 2,
    ensures
        r.0@ == window_line(left@, character@, right@),
        r.1@ == pointer_line(left@, right@),
{
    let left_len = left.unicode_len();
    let right_len = right.unicode_len();
    let width = if left_len <= right_len {
        left_len - 1
    } else {
        right_len - 1
    };
    let line = String::from_str(left.substring_char(left_len - width, left_len - 1));
    let line = line.concat(character);
    let line = line.concat(right.substring_char(1, width));
    let mut pointer = String::new();
    let mut i: usize = 0;
    proof {
        reveal_strlit(" ");
        reveal_strlit("^");
    }
    while i < width
        invariant
            i <= width,
            pointer@ == Seq::new(i as nat, |_i: int| ' '),
            " "@ == seq![' '],
        decreases width - i,
    {
        pointer.append(" ");
        assert(pointer@ =~= Seq::new((i + 1) as nat, |_i: int| ' '));
        i = i + 1;
    }
    pointer.append("^");
    assert(pointer@ =~= Seq::new(width as nat, |_i: int| ' ').push('^'));
    (line, pointer)
}

} // verus!
