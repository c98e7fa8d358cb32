//! Human-readable messages for errors, and a rendering of a parse error under the line
//! of source it points into.
use vstd::prelude::*;
use vstd::string::*;
use vstd::utf8::*;

use crate::deserialize::encode_utf8_cp;
use crate::error::{ParseError, ParseErrorKind, WriteError};
use crate::serialize::SerializeError;
use crate::format::{decimal, format_decimal, spaces};
use crate::text::string_from_utf8;

verus! {

/// Appends the bytes of `s`.
fn push_str(out: &mut Vec<u8>, s: &str)
    ensures
        final(out)@ == old(out)@ + s.spec_bytes(),
{
    out.extend_from_slice(s.as_bytes());
}

/// Appends `b`.
fn push_bytes(out: &mut Vec<u8>, b: &[u8])
    ensures
        final(out)@ == old(out)@ + b@,
{
    out.extend_from_slice(b);
}

/// Appends `n` spaces.
fn push_spaces(out: &mut Vec<u8>, n: usize)
    ensures
        final(out)@ == old(out)@ + spaces(n as nat),
{
    let ghost start = out@;
    let mut i: usize = 0;
    while i < n
        invariant
            i <= n,
            out@ == start + spaces(i as nat),
            start == old(out)@,
        decreases n - i,
    {
        out.push(0x20);
        i = i + 1;
        assert(out@ =~= start + spaces(i as nat));
    }
}

/// The text of the bytes as a `String`; they are valid UTF-8.
fn utf8_string(bytes: Vec<u8>) -> (s: String)
    requires
        valid_utf8(bytes@),
    ensures
        encode_utf8(s@) == bytes@,
{
    match string_from_utf8(bytes) {
        Some(s) => s,
        None => String::new(),
    }
}

impl WriteError {
    /// The message for the error.
    pub open spec fn spec_message(self) -> Seq<u8> {
        match self {
            WriteError::BufferFull => "output buffer is full".spec_bytes(),
            WriteError::DepthExceeded => "nesting depth exceeded".spec_bytes(),
        }
    }

    /// The message for the error.
    pub fn to_string(&self) -> (s: String)
        ensures
            encode_utf8(s@) == self.spec_message(),
    {
        match self {
            WriteError::BufferFull => "output buffer is full".to_owned(),
            WriteError::DepthExceeded => "nesting depth exceeded".to_owned(),
        }
    }
}

/// The message for a kind of parse error.
pub open spec fn kind_text(k: ParseErrorKind) -> Seq<u8> {
    match k {
        ParseErrorKind::UnexpectedToken { expected, got } => "expected ".spec_bytes()
            + expected.spec_bytes() + ", got ".spec_bytes() + got.spec_bytes(),
        ParseErrorKind::UnexpectedEof => "unexpected end of input".spec_bytes(),
        ParseErrorKind::InvalidEscape(b) => "invalid escape: \\".spec_bytes() + encode_scalar(
            b as u32,
        ),
        ParseErrorKind::StringBufferOverflow => "string exceeds scratch buffer".spec_bytes(),
        ParseErrorKind::InvalidUtf8 => "invalid UTF-8 in string".spec_bytes(),
        ParseErrorKind::UnknownField => "unknown field".spec_bytes(),
        ParseErrorKind::MissingField { field } => "missing required field `".spec_bytes()
            + field.spec_bytes() + "`".spec_bytes(),
    }
}

proof fn lemma_str_valid(s: &str)
    ensures
        valid_utf8(s.spec_bytes()),
{
    encode_utf8_valid_utf8(s@);
}

proof fn lemma_scalar_valid(c: u32)
    requires
        is_scalar(c),
    ensures
        valid_utf8(encode_scalar(c)),
{
    let chars = seq![c as char];
    encode_utf8_valid_utf8(chars);
    assert(chars.drop_first() =~= Seq::<char>::empty());
    assert((c as char) as u32 == c);
    assert(chars[0] == c as char);
    assert(encode_utf8(chars.drop_first()) =~= Seq::<u8>::empty());
    assert(encode_utf8(chars) == encode_scalar(chars[0] as u32) + encode_utf8(chars.drop_first()));
    assert(encode_utf8(chars) =~= encode_scalar(c));
}

/// The message of every kind of parse error is valid UTF-8.
proof fn lemma_kind_text_valid(k: ParseErrorKind)
    ensures
        valid_utf8(kind_text(k)),
{
    match k {
        ParseErrorKind::UnexpectedToken { expected, got } => {
            lemma_str_valid("expected ");
            lemma_str_valid(expected);
            lemma_str_valid(", got ");
            lemma_str_valid(got);
            valid_utf8_concat("expected ".spec_bytes(), expected.spec_bytes());
            valid_utf8_concat("expected ".spec_bytes() + expected.spec_bytes(), ", got ".spec_bytes());
            valid_utf8_concat(
                "expected ".spec_bytes() + expected.spec_bytes() + ", got ".spec_bytes(),
                got.spec_bytes(),
            );
        },
        ParseErrorKind::UnexpectedEof => lemma_str_valid("unexpected end of input"),
        ParseErrorKind::InvalidEscape(b) => {
            lemma_str_valid("invalid escape: \\");
            lemma_scalar_valid(b as u32);
            valid_utf8_concat("invalid escape: \\".spec_bytes(), encode_scalar(b as u32));
        },
        ParseErrorKind::StringBufferOverflow => lemma_str_valid("string exceeds scratch buffer"),
        ParseErrorKind::InvalidUtf8 => lemma_str_valid("invalid UTF-8 in string"),
        ParseErrorKind::UnknownField => lemma_str_valid("unknown field"),
        ParseErrorKind::MissingField { field } => {
            lemma_str_valid("missing required field `");
            lemma_str_valid(field);
            lemma_str_valid("`");
            valid_utf8_concat("missing required field `".spec_bytes(), field.spec_bytes());
            valid_utf8_concat(
                "missing required field `".spec_bytes() + field.spec_bytes(),
                "`".spec_bytes(),
            );
        },
    }
}

/// Appends the message for `k`.
fn push_kind(out: &mut Vec<u8>, k: &ParseErrorKind)
    ensures
        final(out)@ == old(out)@ + kind_text(*k),
{
    let ghost start = out@;
    match k {
        ParseErrorKind::UnexpectedToken { expected, got } => {
            push_str(out, "expected ");
            push_str(out, expected);
            push_str(out, ", got ");
            push_str(out, got);
            assert(out@ =~= start + kind_text(*k));
        },
        ParseErrorKind::UnexpectedEof => push_str(out, "unexpected end of input"),
        ParseErrorKind::InvalidEscape(b) => {
            push_str(out, "invalid escape: \\");
            let (bytes, n) = encode_utf8_cp(*b as u32);
            push_bytes(out, &bytes[0..n]);
            assert(bytes@.subrange(0, n as int) =~= bytes@.take(n as int));
            assert(out@ =~= start + kind_text(*k));
        },
        ParseErrorKind::StringBufferOverflow => push_str(out, "string exceeds scratch buffer"),
        ParseErrorKind::InvalidUtf8 => push_str(out, "invalid UTF-8 in string"),
        ParseErrorKind::UnknownField => push_str(out, "unknown field"),
        ParseErrorKind::MissingField { field } => {
            push_str(out, "missing required field `");
            push_str(out, field);
            push_str(out, "`");
            assert(out@ =~= start + kind_text(*k));
        },
    }
}

impl ParseErrorKind {
    /// The message for the error.
    pub fn to_string(&self) -> (s: String)
        ensures
            encode_utf8(s@) == kind_text(*self),
    {
        let mut out: Vec<u8> = Vec::new();
        push_kind(&mut out, self);
        proof {
            assert(out@ =~= kind_text(*self));
            lemma_kind_text_valid(*self);
        }
        utf8_string(out)
    }
}

/// The one-line description of a parse error: `parse error at offset N: message`.
pub open spec fn error_text(e: ParseError) -> Seq<u8> {
    "parse error at offset ".spec_bytes() + decimal(e.offset as nat) + ": ".spec_bytes()
        + kind_text(e.kind)
}

/// Decimal digits are ASCII.
proof fn lemma_decimal_ascii(n: nat)
    ensures
        forall|t: int| 0 <= t < decimal(n).len() ==> #[trigger] decimal(n)[t] < 0x80,
    decreases n,
{
    if n >= 10 {
        lemma_decimal_ascii(n / 10);
        let a = decimal(n / 10);
        let b = seq![(48 + n % 10) as u8];
        assert(decimal(n) == a + b);
        assert forall|t: int| 0 <= t < decimal(n).len() implies #[trigger] decimal(n)[t] < 0x80 by {
            if t < a.len() {
                assert(decimal(n)[t] == a[t]);
            } else {
                assert(decimal(n)[t] == b[t - a.len()]);
            }
        }
    }
}

impl ParseError {
    /// The one-line description of the error.
    pub fn to_string(&self) -> (s: String)
        ensures
            encode_utf8(s@) == error_text(*self),
    {
        let mut out: Vec<u8> = Vec::new();
        push_str(&mut out, "parse error at offset ");
        let (digits, start) = format_decimal(false, self.offset as u128);
        push_bytes(&mut out, &digits[start..40]);
        push_str(&mut out, ": ");
        push_kind(&mut out, &self.kind);
        proof {
            assert(out@ =~= error_text(*self));
            lemma_str_valid("parse error at offset ");
            lemma_str_valid(": ");
            lemma_decimal_ascii(self.offset as nat);
            crate::grammar::lemma_ascii_valid_utf8(decimal(self.offset as nat));
            lemma_kind_text_valid(self.kind);
            valid_utf8_concat("parse error at offset ".spec_bytes(), decimal(self.offset as nat));
            valid_utf8_concat(
                "parse error at offset ".spec_bytes() + decimal(self.offset as nat),
                ": ".spec_bytes(),
            );
            valid_utf8_concat(
                "parse error at offset ".spec_bytes() + decimal(self.offset as nat)
                    + ": ".spec_bytes(),
                kind_text(self.kind),
            );
        }
        utf8_string(out)
    }
}


/// Where the line holding position `i` starts: after the last line feed before `i`.
pub open spec fn line_start(src: Seq<u8>, i: int) -> int
    decreases i,
{
    if i <= 0 {
        0
    } else if src[i - 1] == 0x0A {
        i
    } else {
        line_start(src, i - 1)
    }
}

/// Where the line holding position `i` ends: at the first line feed at or after `i`, or
/// at the end of the source.
pub open spec fn line_end(src: Seq<u8>, i: int) -> int
    decreases src.len() - i,
{
    if i >= src.len() {
        src.len() as int
    } else if src[i] == 0x0A {
        i
    } else {
        line_end(src, i + 1)
    }
}

/// How many characters UTF-8 bytes hold: the bytes that do not continue a character.
pub open spec fn char_count(b: Seq<u8>) -> nat
    decreases b.len(),
{
    if b.len() == 0 {
        0
    } else {
        char_count(b.drop_last()) + if is_continuation_byte(b.last()) {
            0nat
        } else {
            1nat
        }
    }
}

/// Where, reading from position `i`, the character that comes after `k` more
/// characters starts, or the end of the bytes.
pub open spec fn nth_start(b: Seq<u8>, i: int, k: nat) -> int
    decreases b.len() - i,
    when 0 <= i
{
    if i >= b.len() {
        b.len() as int
    } else if !is_continuation_byte(b[i]) {
        if k == 0 {
            i
        } else {
            nth_start(b, i + 1, (k - 1) as nat)
        }
    } else {
        nth_start(b, i + 1, k)
    }
}

/// The characters of a line that are shown: all of a line of at most 80, else 80 of
/// them starting 40 before the error column (or at the start), cut at the line's end.
pub open spec fn window(total: nat, col: nat) -> (nat, nat) {
    if total <= 80 {
        (0, total)
    } else {
        let s: nat = if col >= 40 {
            (col - 40) as nat
        } else {
            0
        };
        let e: nat = if s + 80 <= total {
            s + 80
        } else {
            total
        };
        (s, e)
    }
}

/// `...`
pub open spec fn dots() -> Seq<u8> {
    seq![0x2Eu8, 0x2Eu8, 0x2Eu8]
}

/// A parse error shown under its source line: the line (a window of at most 80
/// characters around the error, with `...` where it is cut), a line with `^` under the
/// error, and then `message` starting under the `^`.
pub open spec fn rendered(src: Seq<u8>, offset: int, message: Seq<u8>) -> Seq<u8> {
    let off = if offset < src.len() {
        offset
    } else {
        src.len() as int
    };
    let ls = line_start(src, off);
    let le = line_end(src, off);
    let line = src.subrange(ls, le);
    let col = char_count(src.subrange(ls, off));
    let total = char_count(line);
    let (ws, we) = window(total, col);
    let left: Seq<u8> = if ws > 0 {
        dots()
    } else {
        Seq::empty()
    };
    let right: Seq<u8> = if we < total {
        dots()
    } else {
        Seq::empty()
    };
    let pointer = (col - ws) + if ws > 0 {
        3int
    } else {
        0int
    };
    left + line.subrange(nth_start(line, 0, ws), nth_start(line, 0, we)) + right + seq![0x0Au8]
        + spaces(pointer as nat) + seq![0x5Eu8, 0x0Au8] + spaces(pointer as nat) + message
}

/// The characters in `src[lo..hi]`.
fn count_chars(src: &[u8], lo: usize, hi: usize) -> (n: usize)
    requires
        lo <= hi <= src@.len(),
    ensures
        n == char_count(src@.subrange(lo as int, hi as int)),
        n <= hi - lo,
{
    let mut n: usize = 0;
    let mut i = lo;
    while i < hi
        invariant
            lo <= i <= hi <= src@.len(),
            n == char_count(src@.subrange(lo as int, i as int)),
            n <= i - lo,
        decreases hi - i,
    {
        assert(src@.subrange(lo as int, i + 1).drop_last() =~= src@.subrange(lo as int, i as int));
        if !(0x80 <= src[i] && src[i] <= 0xBF) {
            n = n + 1;
        }
        i = i + 1;
    }
    n
}

/// The position in `src` where, in the bytes `src[lo..hi]`, the character after the
/// first `k` starts (or `hi`).
fn char_start_in(src: &[u8], lo: usize, hi: usize, k: usize) -> (r: usize)
    requires
        lo <= hi <= src@.len(),
    ensures
        r == lo + nth_start(src@.subrange(lo as int, hi as int), 0, k as nat),
        lo <= r <= hi,
        r < hi ==> !is_continuation_byte(src@[r as int]),
{
    let ghost sub = src@.subrange(lo as int, hi as int);
    let mut i = lo;
    let mut left = k;
    while i < hi
        invariant
            lo <= i <= hi <= src@.len(),
            sub == src@.subrange(lo as int, hi as int),
            nth_start(sub, i - lo, left as nat) == nth_start(sub, 0, k as nat),
        decreases hi - i,
    {
        if !(0x80 <= src[i] && src[i] <= 0xBF) {
            if left == 0 {
                return i;
            }
            left = left - 1;
        }
        i = i + 1;
    }
    i
}

/// The start and end of the line holding position `off`.
fn line_around(src: &[u8], off: usize) -> (r: (usize, usize))
    requires
        off <= src@.len(),
    ensures
        r.0 == line_start(src@, off as int),
        r.1 == line_end(src@, off as int),
        r.0 <= off <= r.1 <= src@.len(),
{
    proof {
        lemma_line_bounds(src@, off as int);
    }
    let len = src.len();
    let mut ls = off;
    while ls > 0 && src[ls - 1] != 0x0A
        invariant
            ls <= off <= len == src@.len(),
            line_start(src@, ls as int) == line_start(src@, off as int),
        decreases ls,
    {
        ls = ls - 1;
    }
    let mut le = off;
    while le < len && src[le] != 0x0A
        invariant
            off <= le <= len == src@.len(),
            line_end(src@, le as int) == line_end(src@, off as int),
        decreases len - le,
    {
        le = le + 1;
    }
    (ls, le)
}

/// The characters of a line of `total` characters that are shown, for an error at
/// column `col`.
fn window_of(total: usize, col: usize) -> (r: (usize, usize))
    requires
        col <= total,
    ensures
        (r.0 as nat, r.1 as nat) == window(total as nat, col as nat),
        r.0 <= col,
        r.0 <= r.1 <= total,
{
    if total <= 80 {
        (0, total)
    } else {
        let ws = if col >= 40 {
            col - 40
        } else {
            0
        };
        let we = if total - ws >= 80 {
            ws + 80
        } else {
            total
        };
        (ws, we)
    }
}

/// Renders an error at `offset`, with message `message`, under its line of `src`.
fn render(src: &[u8], offset: usize, message: &[u8]) -> (out: Vec<u8>)
    ensures
        out@ == rendered(src@, offset as int, message@),
{
    let len = src.len();
    let off = if offset < len {
        offset
    } else {
        len
    };
    let (ls, le) = line_around(src, off);
    let col = count_chars(src, ls, off);
    let total = count_chars(src, ls, le);
    proof {
        let line = src@.subrange(ls as int, le as int);
        lemma_char_count_prefix(line, off - ls);
        assert(line.take(off - ls) =~= src@.subrange(ls as int, off as int));
        assert(line.subrange(0, (le - ls) as int) =~= line);
    }
    let (ws, we) = window_of(total, col);
    let lo = char_start_in(src, ls, le, ws);
    let hi = char_start_in(src, ls, le, we);
    proof {
        lemma_nth_start_mono(src@.subrange(ls as int, le as int), 0, ws as nat, we as nat);
    }
    let mut out: Vec<u8> = Vec::new();
    let d: [u8; 3] = [0x2E, 0x2E, 0x2E];
    assert(d@ =~= dots());
    if ws > 0 {
        push_bytes(&mut out, &d);
    }
    push_bytes(&mut out, &src[lo..hi]);
    if we < total {
        push_bytes(&mut out, &d);
    }
    out.push(0x0A);
    let pointer = if ws > 0 {
        (col - ws) + 3
    } else {
        col
    };
    push_spaces(&mut out, pointer);
    out.push(0x5E);
    out.push(0x0A);
    push_spaces(&mut out, pointer);
    push_bytes(&mut out, message);
    proof {
        let line = src@.subrange(ls as int, le as int);
        assert(src@.subrange(lo as int, hi as int) =~= line.subrange(
            nth_start(line, 0, ws as nat),
            nth_start(line, 0, we as nat),
        ));
    }
    assert(out@ =~= rendered(src@, offset as int, message@));
    out
}

/// A prefix holds no more characters than the whole.
proof fn lemma_char_count_prefix(b: Seq<u8>, k: int)
    requires
        0 <= k <= b.len(),
    ensures
        char_count(b.take(k)) <= char_count(b),
    decreases b.len() - k,
{
    if k < b.len() {
        lemma_char_count_prefix(b, k + 1);
        assert(b.take(k + 1).drop_last() =~= b.take(k));
    } else {
        assert(b.take(k) =~= b);
    }
}

/// Skipping more characters lands no earlier.
proof fn lemma_nth_start_mono(b: Seq<u8>, i: int, j: nat, k: nat)
    requires
        0 <= i <= b.len(),
        j <= k,
    ensures
        nth_start(b, i, j) <= nth_start(b, i, k),
        i <= nth_start(b, i, j) <= b.len(),
    decreases b.len() - i,
{
    if i < b.len() {
        if !is_continuation_byte(b[i]) {
            if j > 0 {
                lemma_nth_start_mono(b, i + 1, (j - 1) as nat, (k - 1) as nat);
            } else if k > 0 {
                lemma_nth_start_mono(b, i + 1, 0, (k - 1) as nat);
            }
        } else {
            lemma_nth_start_mono(b, i + 1, j, k);
        }
    }
}

/// A parse error together with the source it was found in, for showing the error under
/// its line. Made by [`ParseError::display_with_source`].
pub struct ParseErrorDisplay<'a> {
    error: &'a ParseError,
    src: &'a str,
}

impl<'a> ParseErrorDisplay<'a> {
    /// The error shown.
    pub closed spec fn error(&self) -> ParseError {
        *self.error
    }

    /// The bytes of the source.
    pub closed spec fn source(&self) -> Seq<u8> {
        self.src.spec_bytes()
    }

    /// The error under its source line, as described at [`rendered`].
    pub fn to_string(&self) -> (s: String)
        ensures
            encode_utf8(s@) == rendered(
                self.source(),
                self.error().offset as int,
                kind_text(self.error().kind),
            ),
    {
        let mut message: Vec<u8> = Vec::new();
        push_kind(&mut message, &self.error.kind);
        let out = render(self.src.as_bytes(), self.error.offset, message.as_slice());
        proof {
            lemma_kind_text_valid(self.error.kind);
            lemma_str_valid(self.src);
            lemma_rendered_valid(self.source(), self.error.offset as int, message@);
        }
        utf8_string(out)
    }
}

impl ParseError {
    /// The error together with the source it was found in, for showing the error under
    /// its line.
    pub fn display_with_source<'a>(&'a self, src: &'a str) -> (d: ParseErrorDisplay<'a>)
        ensures
            d.error() == *self,
            d.source() == src.spec_bytes(),
    {
        ParseErrorDisplay { error: self, src }
    }
}


/// The line of position `i` lies around it, within the source, and ends at a line feed
/// or at the end of the source.
proof fn lemma_line_bounds(src: Seq<u8>, i: int)
    requires
        0 <= i <= src.len(),
    ensures
        0 <= line_start(src, i) <= i,
        i <= line_end(src, i) <= src.len(),
        line_end(src, i) < src.len() ==> src[line_end(src, i)] == 0x0A,
    decreases src.len() - i,
{
    lemma_line_start_bounds(src, i);
    if i < src.len() && src[i] != 0x0A {
        lemma_line_bounds(src, i + 1);
    }
}

proof fn lemma_line_start_bounds(src: Seq<u8>, i: int)
    requires
        0 <= i <= src.len(),
    ensures
        0 <= line_start(src, i) <= i,
    decreases i,
{
    if i > 0 && src[i - 1] != 0x0A {
        lemma_line_start_bounds(src, i - 1);
    }
}

/// Skipping characters lands on a byte that starts a character, or at the end.
proof fn lemma_nth_start_lands(b: Seq<u8>, i: int, k: nat)
    requires
        0 <= i <= b.len(),
    ensures
        i <= nth_start(b, i, k) <= b.len(),
        nth_start(b, i, k) < b.len() ==> !is_continuation_byte(b[nth_start(b, i, k)]),
    decreases b.len() - i,
{
    if i < b.len() {
        if !is_continuation_byte(b[i]) {
            if k > 0 {
                lemma_nth_start_lands(b, i + 1, (k - 1) as nat);
            }
        } else {
            lemma_nth_start_lands(b, i + 1, k);
        }
    }
}

/// A position of valid UTF-8 at its end or at a byte that starts a character is a
/// character boundary.
proof fn lemma_boundary(b: Seq<u8>, x: int)
    requires
        valid_utf8(b),
        0 <= x <= b.len(),
        x < b.len() ==> !is_continuation_byte(b[x]),
    ensures
        is_char_boundary(b, x),
{
    if x < b.len() {
        is_char_boundary_iff_not_is_continuation_byte(b, x);
    } else {
        is_char_boundary_start_end_of_seq(b);
    }
}

/// The bytes between two character boundaries of valid UTF-8 are valid UTF-8.
proof fn lemma_valid_between(b: Seq<u8>, x: int, y: int)
    requires
        valid_utf8(b),
        0 <= x <= y <= b.len(),
        x < b.len() ==> !is_continuation_byte(b[x]),
        y < b.len() ==> !is_continuation_byte(b[y]),
    ensures
        valid_utf8(b.subrange(x, y)),
{
    lemma_boundary(b, x);
    valid_utf8_split(b, x);
    let suf = b.subrange(x, b.len() as int);
    assert(y - x < suf.len() ==> suf[y - x] == b[y]);
    lemma_boundary(suf, y - x);
    valid_utf8_split(suf, y - x);
    assert(suf.subrange(0, y - x) =~= b.subrange(x, y));
}

/// Spaces are valid UTF-8.
proof fn lemma_spaces_valid(n: nat)
    ensures
        valid_utf8(spaces(n)),
{
    crate::grammar::lemma_ascii_valid_utf8(spaces(n));
}

/// The rendering of an error in valid UTF-8 source, with a valid UTF-8 message, is valid
/// UTF-8.
proof fn lemma_rendered_valid(src: Seq<u8>, offset: int, message: Seq<u8>)
    requires
        valid_utf8(src),
        valid_utf8(message),
        0 <= offset,
    ensures
        valid_utf8(rendered(src, offset, message)),
{
    let off = if offset < src.len() {
        offset
    } else {
        src.len() as int
    };
    lemma_line_bounds(src, off);
    lemma_char_count_prefix(src.subrange(line_start(src, off), line_end(src, off)), off - line_start(src, off));
    assert(src.subrange(line_start(src, off), line_end(src, off)).take(off - line_start(src, off)) =~= src.subrange(line_start(src, off), off));
    let ls = line_start(src, off);
    let le = line_end(src, off);
    let line = src.subrange(ls, le);
    let col = char_count(src.subrange(ls, off));
    let total = char_count(line);
    let (ws, we) = window(total, col);
    let a = nth_start(line, 0, ws);
    let b = nth_start(line, 0, we);
    lemma_nth_start_lands(line, 0, ws);
    lemma_nth_start_lands(line, 0, we);
    lemma_nth_start_mono(line, 0, ws, we);
    assert(ls + a < src.len() ==> !is_continuation_byte(src[ls + a])) by {
        if ls + a < src.len() {
            if a < line.len() {
                assert(src[ls + a] == line[a]);
            } else {
                assert(src[le] == 0x0A);
            }
        }
    }
    assert(ls + b < src.len() ==> !is_continuation_byte(src[ls + b])) by {
        if ls + b < src.len() {
            if b < line.len() {
                assert(src[ls + b] == line[b]);
            } else {
                assert(src[le] == 0x0A);
            }
        }
    }
    lemma_valid_between(src, ls + a, ls + b);
    assert(line.subrange(a, b) =~= src.subrange(ls + a, ls + b));
    let pointer = (col - ws) + if ws > 0 {
        3int
    } else {
        0int
    };
    let left: Seq<u8> = if ws > 0 {
        dots()
    } else {
        Seq::empty()
    };
    let right: Seq<u8> = if we < total {
        dots()
    } else {
        Seq::empty()
    };
    crate::grammar::lemma_ascii_valid_utf8(left);
    crate::grammar::lemma_ascii_valid_utf8(right);
    crate::grammar::lemma_ascii_valid_utf8(seq![0x0Au8]);
    crate::grammar::lemma_ascii_valid_utf8(seq![0x5Eu8, 0x0Au8]);
    lemma_spaces_valid(pointer as nat);
    let w = line.subrange(a, b);
    valid_utf8_concat(left, w);
    valid_utf8_concat(left + w, right);
    valid_utf8_concat(left + w + right, seq![0x0Au8]);
    valid_utf8_concat(left + w + right + seq![0x0Au8], spaces(pointer as nat));
    valid_utf8_concat(left + w + right + seq![0x0Au8] + spaces(pointer as nat), seq![0x5Eu8, 0x0Au8]);
    valid_utf8_concat(
        left + w + right + seq![0x0Au8] + spaces(pointer as nat) + seq![0x5Eu8, 0x0Au8],
        spaces(pointer as nat),
    );
    valid_utf8_concat(
        left + w + right + seq![0x0Au8] + spaces(pointer as nat) + seq![0x5Eu8, 0x0Au8] + spaces(
            pointer as nat,
        ),
        message,
    );
}


impl SerializeError<WriteError> {
    /// The message for the error.
    pub open spec fn spec_message(self) -> Seq<u8> {
        match self {
            SerializeError::Write(e) => "write error: ".spec_bytes() + e.spec_message(),
            SerializeError::DepthExceeded => "nesting depth exceeded".spec_bytes(),
            SerializeError::InvalidState => "invalid serializer call order".spec_bytes(),
        }
    }

    /// The message for the error.
    pub fn to_string(&self) -> (s: String)
        ensures
            encode_utf8(s@) == self.spec_message(),
    {
        let mut out: Vec<u8> = Vec::new();
        match self {
            SerializeError::Write(e) => {
                push_str(&mut out, "write error: ");
                match e {
                    WriteError::BufferFull => push_str(&mut out, "output buffer is full"),
                    WriteError::DepthExceeded => push_str(&mut out, "nesting depth exceeded"),
                }
                proof {
                    lemma_str_valid("write error: ");
                    lemma_str_valid("output buffer is full");
                    lemma_str_valid("nesting depth exceeded");
                    valid_utf8_concat("write error: ".spec_bytes(), e.spec_message());
                }
            },
            SerializeError::DepthExceeded => {
                push_str(&mut out, "nesting depth exceeded");
                proof {
                    lemma_str_valid("nesting depth exceeded");
                }
            },
            SerializeError::InvalidState => {
                push_str(&mut out, "invalid serializer call order");
                proof {
                    lemma_str_valid("invalid serializer call order");
                }
            },
        }
        assert(out@ =~= self.spec_message());
        utf8_string(out)
    }
}
} // verus!
