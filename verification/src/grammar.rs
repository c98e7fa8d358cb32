//! The JSON text the parser accepts, as spec functions over the source bytes.
use vstd::prelude::*;
use vstd::utf8::{encode_scalar, is_leading_byte_width_1, partial_valid_utf8_extend_ascii_block, valid_utf8};

use crate::deserialize::Token;
use crate::error::{ParseError, ParseErrorKind};

verus! {

/// JSON insignificant whitespace: space, tab, line feed, carriage return.
pub open spec fn is_ws(b: u8) -> bool {
    b == 0x20 || b == 0x09 || b == 0x0A || b == 0x0D
}

/// The first position at or after `i` that does not hold whitespace.
pub open spec fn skip_ws(src: Seq<u8>, i: int) -> int
    decreases src.len() - i,
{
    if 0 <= i < src.len() && is_ws(src[i]) {
        skip_ws(src, i + 1)
    } else {
        i
    }
}

/// The kind of token that starts with byte `b`.
pub open spec fn token_of_first_byte(b: u8) -> Token {
    if b == 0x7B {
        Token::OpenCurly
    } else if b == 0x7D {
        Token::CloseCurly
    } else if b == 0x5B {
        Token::OpenBracket
    } else if b == 0x5D {
        Token::CloseBracket
    } else if b == 0x2C {
        Token::Comma
    } else if b == 0x3A {
        Token::Colon
    } else if b == 0x22 {
        Token::String
    } else if b == 0x74 {
        Token::True
    } else if b == 0x66 {
        Token::False
    } else if b == 0x6E {
        Token::Null
    } else if b == 0x2D || (0x30 <= b <= 0x39) {
        Token::Number
    } else {
        Token::Invalid
    }
}

/// The kind of the next token, judged by its first non-whitespace byte.
pub open spec fn peek_kind(src: Seq<u8>, pos: int) -> Token {
    let i = skip_ws(src, pos);
    if i >= src.len() {
        Token::Eof
    } else {
        token_of_first_byte(src[i])
    }
}

/// An ASCII decimal digit.
pub open spec fn is_digit(b: u8) -> bool {
    0x30 <= b <= 0x39
}

/// The first position at or after `i` that does not hold a digit.
pub open spec fn digits_end(src: Seq<u8>, i: int) -> int
    decreases src.len() - i,
{
    if 0 <= i < src.len() && is_digit(src[i]) {
        digits_end(src, i + 1)
    } else {
        i
    }
}

/// The end of the number that starts at `s`, following the JSON number grammar
/// `-? (0 | [1-9][0-9]*) (. [0-9]+)? ([eE] [+-]? [0-9]+)?`, or `None` if the bytes at
/// `s` do not form one (a leading zero may not be followed by another digit).
pub open spec fn number_end(src: Seq<u8>, s: int) -> Option<int> {
    let i0 = if 0 <= s < src.len() && src[s] == 0x2D {
        s + 1
    } else {
        s
    };
    if !(0 <= i0 < src.len() && is_digit(src[i0])) {
        None
    } else {
        let i1 = if src[i0] == 0x30 {
            i0 + 1
        } else {
            digits_end(src, i0)
        };
        if i1 < src.len() && is_digit(src[i1]) {
            None
        } else {
            let has_frac = i1 < src.len() && src[i1] == 0x2E;
            let i2 = if has_frac {
                digits_end(src, i1 + 1)
            } else {
                i1
            };
            if has_frac && i2 == i1 + 1 {
                None
            } else {
                let has_exp = i2 < src.len() && (src[i2] == 0x65 || src[i2] == 0x45);
                let e0 = if has_exp && i2 + 1 < src.len() && (src[i2 + 1] == 0x2B || src[i2 + 1]
                    == 0x2D) {
                    i2 + 2
                } else {
                    i2 + 1
                };
                if !has_exp {
                    Some(i2)
                } else if digits_end(src, e0) == e0 {
                    None
                } else {
                    Some(digits_end(src, e0))
                }
            }
        }
    }
}

/// `src` holds `word` at position `i`.
pub open spec fn matches_at(src: Seq<u8>, i: int, word: Seq<u8>) -> bool {
    0 <= i && i + word.len() <= src.len() && src.subrange(i, i + word.len()) == word
}

pub open spec fn true_word() -> Seq<u8> {
    seq![0x74u8, 0x72u8, 0x75u8, 0x65u8]
}

pub open spec fn false_word() -> Seq<u8> {
    seq![0x66u8, 0x61u8, 0x6Cu8, 0x73u8, 0x65u8]
}

pub open spec fn null_word() -> Seq<u8> {
    seq![0x6Eu8, 0x75u8, 0x6Cu8, 0x6Cu8]
}

/// The error for an unexpected token.
pub open spec fn unexpected(offset: int, expected: &'static str, got: &'static str) -> ParseError {
    ParseError {
        kind: ParseErrorKind::UnexpectedToken { expected, got },
        offset: offset as usize,
    }
}

/// The outcome of reading one token.
pub enum Lexed {
    /// A token of kind `token` occupying `start..end`. For a string token only the
    /// opening quote is looked at here, and `end == start`.
    Tok { token: Token, start: int, end: int },
    /// The bytes at the token's start do not form a token.
    Fail { err: ParseError },
}

/// The next token after any whitespace at `pos`.
pub open spec fn lex(src: Seq<u8>, pos: int) -> Lexed {
    let i = skip_ws(src, pos);
    if i >= src.len() {
        Lexed::Tok { token: Token::Eof, start: i, end: i }
    } else {
        let t = token_of_first_byte(src[i]);
        if t == Token::OpenCurly || t == Token::CloseCurly || t == Token::OpenBracket || t
            == Token::CloseBracket || t == Token::Comma || t == Token::Colon {
            Lexed::Tok { token: t, start: i, end: i + 1 }
        } else if t == Token::String {
            Lexed::Tok { token: t, start: i, end: i }
        } else if matches_at(src, i, true_word()) {
            Lexed::Tok { token: Token::True, start: i, end: i + 4 }
        } else if matches_at(src, i, false_word()) {
            Lexed::Tok { token: Token::False, start: i, end: i + 5 }
        } else if matches_at(src, i, null_word()) {
            Lexed::Tok { token: Token::Null, start: i, end: i + 4 }
        } else if t == Token::Number {
            match number_end(src, i) {
                Some(e) => Lexed::Tok { token: Token::Number, start: i, end: e },
                None => Lexed::Fail { err: unexpected(i, "value", "invalid number") },
            }
        } else {
            Lexed::Fail { err: unexpected(i, "value", "invalid character") }
        }
    }
}

/// The value of a hex digit, or -1.
pub open spec fn hex_val(b: u8) -> int {
    if 0x30 <= b <= 0x39 {
        b - 0x30
    } else if 0x61 <= b <= 0x66 {
        b - 0x61 + 10
    } else if 0x41 <= b <= 0x46 {
        b - 0x41 + 10
    } else {
        -1
    }
}

/// The value of the four hex digits at `q..q + 4`, or -1 if one of them is not a hex digit.
pub open spec fn hex4(src: Seq<u8>, q: int) -> int {
    let a = hex_val(src[q]);
    let b = hex_val(src[q + 1]);
    let c = hex_val(src[q + 2]);
    let d = hex_val(src[q + 3]);
    if a < 0 || b < 0 || c < 0 || d < 0 {
        -1
    } else {
        a * 4096 + b * 256 + c * 16 + d
    }
}

/// The byte a short escape `\c` stands for, or -1 if `c` has no short escape.
/// The short escapes are `\" \\ \/ \b \f \n \r \t`.
pub open spec fn short_escape(c: u8) -> int {
    if c == 0x22 {
        0x22
    } else if c == 0x5C {
        0x5C
    } else if c == 0x2F {
        0x2F
    } else if c == 0x62 {
        0x08
    } else if c == 0x66 {
        0x0C
    } else if c == 0x6E {
        0x0A
    } else if c == 0x72 {
        0x0D
    } else if c == 0x74 {
        0x09
    } else {
        -1
    }
}

/// The outcome of reading the inside of a string literal.
pub enum StrScan {
    /// The closing quote was found; `end` is the position after it.
    Done { end: int, content: Seq<u8> },
    /// Reading stopped with an error; `content` is what was decoded before it.
    Fail { kind: ParseErrorKind, offset: int, content: Seq<u8> },
}

/// Reads a string literal from position `p` (after the opening quote at `tok`), having
/// decoded `acc` so far. Escapes are decoded (`\uXXXX`, with surrogate pairs, as
/// UTF-8); other bytes are copied. Control bytes below 0x20 are rejected.
pub open spec fn scan_str(src: Seq<u8>, p: int, acc: Seq<u8>, tok: int) -> StrScan
    decreases src.len() - p,
    when 0 <= p
{
    if p >= src.len() {
        StrScan::Fail { kind: ParseErrorKind::UnexpectedEof, offset: tok, content: acc }
    } else if src[p] == 0x22 {
        StrScan::Done { end: p + 1, content: acc }
    } else if src[p] == 0x5C {
        if p + 1 >= src.len() {
            StrScan::Fail { kind: ParseErrorKind::UnexpectedEof, offset: p + 1, content: acc }
        } else {
            let esc = src[p + 1];
            let q = p + 2;
            if esc == 0x75 {
                if q + 4 > src.len() {
                    StrScan::Fail { kind: ParseErrorKind::UnexpectedEof, offset: q, content: acc }
                } else if hex4(src, q) < 0 {
                    StrScan::Fail {
                        kind: ParseErrorKind::InvalidEscape(0x75),
                        offset: q,
                        content: acc,
                    }
                } else {
                    let h = hex4(src, q);
                    let r = q + 4;
                    if 0xD800 <= h <= 0xDBFF {
                        if r + 6 > src.len() || src[r] != 0x5C || src[r + 1] != 0x75 {
                            StrScan::Fail {
                                kind: ParseErrorKind::InvalidEscape(0x75),
                                offset: r,
                                content: acc,
                            }
                        } else if !(0xDC00 <= hex4(src, r + 2) <= 0xDFFF) {
                            StrScan::Fail {
                                kind: ParseErrorKind::InvalidEscape(0x75),
                                offset: r + 2,
                                content: acc,
                            }
                        } else {
                            let cp = 0x10000 + (h - 0xD800) * 1024 + (hex4(src, r + 2) - 0xDC00);
                            scan_str(src, r + 6, acc + encode_scalar(cp as u32), tok)
                        }
                    } else if 0xDC00 <= h <= 0xDFFF {
                        StrScan::Fail {
                            kind: ParseErrorKind::InvalidEscape(0x75),
                            offset: q,
                            content: acc,
                        }
                    } else {
                        scan_str(src, r, acc + encode_scalar(h as u32), tok)
                    }
                }
            } else if short_escape(esc) >= 0 {
                scan_str(src, q, acc.push(short_escape(esc) as u8), tok)
            } else {
                StrScan::Fail {
                    kind: ParseErrorKind::InvalidEscape(esc),
                    offset: p + 1,
                    content: acc,
                }
            }
        }
    } else if src[p] < 0x20 {
        StrScan::Fail {
            kind: ParseErrorKind::UnexpectedToken { expected: "string", got: "control character" },
            offset: p,
            content: acc,
        }
    } else {
        scan_str(src, p + 1, acc.push(src[p]), tok)
    }
}

/// A byte copied unchanged inside a string literal: not `"`, `\`, or a control byte.
pub open spec fn is_plain_str_byte(b: u8) -> bool {
    b != 0x22 && b != 0x5C && b >= 0x20
}

/// The first position at or after `i` that does not hold a plain string byte.
pub open spec fn plain_end(src: Seq<u8>, i: int) -> int
    decreases src.len() - i,
{
    if 0 <= i < src.len() && is_plain_str_byte(src[i]) {
        plain_end(src, i + 1)
    } else {
        i
    }
}

/// The decoded content and end of the string literal whose opening quote is at `start`,
/// or the error reading it gives, before the content is checked to be UTF-8.
///
/// Content is decoded into a scratch buffer of `cap` bytes; `StringBufferOverflow`
/// (at `start`) is reported once more than `cap` bytes have been decoded. When
/// `borrow_plain` holds and the literal has no escape before it ends, the content is
/// taken from the source and needs no scratch space.
pub open spec fn string_scanned(src: Seq<u8>, start: int, cap: nat, borrow_plain: bool) -> Result<
    (Seq<u8>, int),
    ParseError,
> {
    let q = plain_end(src, start + 1);
    let borrowed = borrow_plain && !(q < src.len() && src[q] == 0x5C);
    let overflow = ParseError { kind: ParseErrorKind::StringBufferOverflow, offset: start as usize };
    match scan_str(src, start + 1, Seq::empty(), start) {
        StrScan::Done { end, content } => if !borrowed && content.len() > cap {
            Err(overflow)
        } else {
            Ok((content, end))
        },
        StrScan::Fail { kind, offset, content } => if !borrowed && content.len() > cap {
            Err(overflow)
        } else {
            Err(ParseError { kind, offset: offset as usize })
        },
    }
}

/// [`string_scanned`], with the content required to be valid UTF-8 (`InvalidUtf8` at
/// `start` otherwise).
pub open spec fn string_outcome(src: Seq<u8>, start: int, cap: nat, borrow_plain: bool) -> Result<
    (Seq<u8>, int),
    ParseError,
> {
    match string_scanned(src, start, cap, borrow_plain) {
        Ok((content, end)) => if valid_utf8(content) {
            Ok((content, end))
        } else {
            Err(ParseError { kind: ParseErrorKind::InvalidUtf8, offset: start as usize })
        },
        Err(e) => Err(e),
    }
}

/// The content a scan ends with extends what was decoded before it.
#[verifier::rlimit(40)]
pub proof fn lemma_scan_extends(src: Seq<u8>, p: int, acc: Seq<u8>, tok: int)
    requires
        0 <= p,
    ensures
        acc.len() <= scan_content(scan_str(src, p, acc, tok)).len(),
        scan_content(scan_str(src, p, acc, tok)).take(acc.len() as int) == acc,
    decreases src.len() - p,
{
    if p >= src.len() {
        assert(acc.take(acc.len() as int) =~= acc);
    } else if src[p] == 0x22 {
        assert(acc.take(acc.len() as int) =~= acc);
    } else if src[p] == 0x5C {
        assert(acc.take(acc.len() as int) =~= acc);
        if p + 1 < src.len() {
            let esc = src[p + 1];
            let q = p + 2;
            if esc == 0x75 {
                if q + 4 <= src.len() && hex4(src, q) >= 0 {
                    let h = hex4(src, q);
                    let r = q + 4;
                    if 0xD800 <= h <= 0xDBFF {
                        if !(r + 6 > src.len() || src[r] != 0x5C || src[r + 1] != 0x75) && (0xDC00
                            <= hex4(src, r + 2) <= 0xDFFF) {
                            let cp = 0x10000 + (h - 0xD800) * 1024 + (hex4(src, r + 2) - 0xDC00);
                            let acc2 = acc + encode_scalar(cp as u32);
                            assert(acc2.take(acc.len() as int) =~= acc);
                            lemma_scan_extends(src, r + 6, acc2, tok);
                            lemma_take_take(scan_content(scan_str(src, r + 6, acc2, tok)), acc2, acc);
                        }
                    } else if !(0xDC00 <= h <= 0xDFFF) {
                        let acc2 = acc + encode_scalar(h as u32);
                        assert(acc2.take(acc.len() as int) =~= acc);
                        lemma_scan_extends(src, r, acc2, tok);
                        lemma_take_take(scan_content(scan_str(src, r, acc2, tok)), acc2, acc);
                    }
                }
            } else if short_escape(esc) >= 0 {
                let acc2 = acc.push(short_escape(esc) as u8);
                assert(acc2.take(acc.len() as int) =~= acc);
                lemma_scan_extends(src, q, acc2, tok);
                lemma_take_take(scan_content(scan_str(src, q, acc2, tok)), acc2, acc);
            }
        }
    } else if src[p] < 0x20 {
        assert(acc.take(acc.len() as int) =~= acc);
    } else {
        let acc2 = acc.push(src[p]);
        assert(acc2.take(acc.len() as int) =~= acc);
        lemma_scan_extends(src, p + 1, acc2, tok);
        lemma_take_take(scan_content(scan_str(src, p + 1, acc2, tok)), acc2, acc);
    }
}

/// The content a scan ends with.
pub open spec fn scan_content(s: StrScan) -> Seq<u8> {
    match s {
        StrScan::Done { content, .. } => content,
        StrScan::Fail { content, .. } => content,
    }
}

proof fn lemma_take_take(c: Seq<u8>, b: Seq<u8>, a: Seq<u8>)
    requires
        b.len() <= c.len(),
        c.take(b.len() as int) == b,
        a.len() <= b.len(),
        b.take(a.len() as int) == a,
    ensures
        a.len() <= c.len(),
        c.take(a.len() as int) == a,
{
    assert(c.take(a.len() as int) =~= c.take(b.len() as int).take(a.len() as int));
}

/// Reading a run of plain bytes just copies them.
pub proof fn lemma_scan_plain_run(src: Seq<u8>, p: int, q: int, acc: Seq<u8>, tok: int)
    requires
        0 <= p <= q <= src.len(),
        forall|t: int| p <= t < q ==> is_plain_str_byte(#[trigger] src[t]),
    ensures
        scan_str(src, p, acc, tok) == scan_str(src, q, acc + src.subrange(p, q), tok),
    decreases q - p,
{
    if p < q {
        lemma_scan_plain_run(src, p + 1, q, acc.push(src[p]), tok);
        assert(acc.push(src[p]) + src.subrange(p + 1, q) =~= acc + src.subrange(p, q));
    } else {
        assert(acc + src.subrange(p, q) =~= acc);
    }
}

/// Reading a token of kind `want` (not a string) at `pos`: its start and end, or the error.
pub open spec fn expect_outcome(src: Seq<u8>, pos: int, want: Token) -> Result<(int, int), ParseError> {
    match lex(src, pos) {
        Lexed::Fail { err } => Err(err),
        Lexed::Tok { token, start, end } => if token == want {
            Ok((start, end))
        } else {
            Err(unexpected(start, want.spec_name(), token.spec_name()))
        },
    }
}

/// Reading a string value at `pos` with `cap` bytes of scratch space: its content and
/// the position after it, or the error.
pub open spec fn string_value_outcome(src: Seq<u8>, pos: int, cap: nat) -> Result<
    (Seq<u8>, int),
    ParseError,
> {
    match lex(src, pos) {
        Lexed::Fail { err } => Err(err),
        Lexed::Tok { token, start, end } => if token == Token::String {
            string_outcome(src, start, cap, false)
        } else {
            Err(unexpected(start, "string", token.spec_name()))
        },
    }
}

/// Asking for the next array item at `pos`: whether there is one and the position of
/// its value (after any `,`), or the error. `first` holds when no item of the array has
/// been read yet: then a `,` is an error, and afterwards one is required.
pub open spec fn item_outcome(src: Seq<u8>, pos: int, first: bool) -> Result<(bool, int), ParseError> {
    let i = skip_ws(src, pos);
    let t = peek_kind(src, pos);
    if t == Token::CloseBracket {
        Ok((false, pos))
    } else if t == Token::Comma {
        if first {
            Err(unexpected(i, "array item", ","))
        } else {
            Ok((true, i + 1))
        }
    } else if first {
        Ok((true, pos))
    } else {
        Err(unexpected(i, ", or ]", t.spec_name()))
    }
}

/// Reading an object key whose opening quote is at `k`, and the `:` after it: the key
/// and the position after the `:`, or the error. A key without escapes is taken from
/// the source and needs no scratch space.
pub open spec fn key_outcome(src: Seq<u8>, k: int, cap: nat) -> Result<(Seq<u8>, int), ParseError> {
    key_outcome_with(src, k, cap, true)
}

/// Reading an object key as [`key_outcome`] does, where `borrow` says whether a key
/// without escapes is taken from the source (otherwise every key is decoded into the
/// scratch space, and one that does not fit is an error).
pub open spec fn key_outcome_with(src: Seq<u8>, k: int, cap: nat, borrow: bool) -> Result<
    (Seq<u8>, int),
    ParseError,
> {
    match string_scanned(src, k, cap, borrow) {
        Err(e) => Err(e),
        Ok((content, e1)) => match expect_outcome(src, e1, Token::Colon) {
            Err(e) => Err(e),
            Ok((_, e2)) => if valid_utf8(content) {
                Ok((content, e2))
            } else {
                Err(ParseError { kind: ParseErrorKind::InvalidUtf8, offset: k as usize })
            },
        },
    }
}

/// Asking for the next object member at `pos`: `None` at the closing `}` (which is not
/// consumed), or the key, where its quote is, and the position after its `:`. `first`
/// holds when no member of the object has been read yet.
pub open spec fn member_outcome(src: Seq<u8>, pos: int, first: bool, cap: nat) -> Result<
    Option<(Seq<u8>, int, int)>,
    ParseError,
> {
    member_outcome_with(src, pos, first, cap, true)
}

/// Asking for the next object member as [`member_outcome`] does, with keys read as
/// [`key_outcome_with`] reads them.
pub open spec fn member_outcome_with(src: Seq<u8>, pos: int, first: bool, cap: nat, borrow: bool) -> Result<
    Option<(Seq<u8>, int, int)>,
    ParseError,
> {
    match lex(src, pos) {
        Lexed::Fail { err } => Err(err),
        Lexed::Tok { token, start, end } => if token == Token::CloseCurly {
            Ok(None)
        } else if token == Token::Comma {
            if first {
                Err(unexpected(start, "string or }", ","))
            } else {
                match lex(src, end) {
                    Lexed::Fail { err } => Err(err),
                    Lexed::Tok { token: t2, start: s2, end: _ } => if t2 == Token::String {
                        match key_outcome_with(src, s2, cap, borrow) {
                            Err(e) => Err(e),
                            Ok((key, e2)) => Ok(Some((key, s2, e2))),
                        }
                    } else {
                        Err(unexpected(s2, "string", t2.spec_name()))
                    },
                }
            }
        } else if token == Token::String {
            if first {
                match key_outcome_with(src, start, cap, borrow) {
                    Err(e) => Err(e),
                    Ok((key, e2)) => Ok(Some((key, start, e2))),
                }
            } else {
                Err(unexpected(start, ", or }", "string"))
            }
        } else {
            Err(unexpected(start, "string or }", token.spec_name()))
        },
    }
}

/// Reading `true` or `false` at `pos`: the value and the position after it, or the error.
pub open spec fn bool_outcome(src: Seq<u8>, pos: int) -> Result<(bool, int), ParseError> {
    match lex(src, pos) {
        Lexed::Fail { err } => Err(err),
        Lexed::Tok { token, start, end } => if token == Token::True {
            Ok((true, end))
        } else if token == Token::False {
            Ok((false, end))
        } else {
            Err(unexpected(start, "boolean", token.spec_name()))
        },
    }
}

/// Only whitespace is left from `pos` on.
pub open spec fn finish_outcome(src: Seq<u8>, pos: int) -> Result<(), ParseError> {
    match lex(src, pos) {
        Lexed::Fail { err } => Err(err),
        Lexed::Tok { token, start, end } => if token == Token::Eof {
            Ok(())
        } else {
            Err(unexpected(start, "end of input", token.spec_name()))
        },
    }
}

/// The value of a run of decimal digits.
pub open spec fn digits_value(d: Seq<u8>) -> nat
    decreases d.len(),
{
    if d.len() == 0 {
        0
    } else {
        digits_value(d.drop_last()) * 10 + (d.last() - 0x30) as nat
    }
}

/// Every byte of `d` is a decimal digit.
pub open spec fn all_digits(d: Seq<u8>) -> bool {
    forall|i: int| 0 <= i < d.len() ==> is_digit(#[trigger] d[i])
}

/// The sign and magnitude of an integer text `-?[0-9]+`, or `None` for any other text.
pub open spec fn int_parts(t: Seq<u8>) -> Option<(bool, nat)> {
    let neg = t.len() > 0 && t[0] == 0x2D;
    let d = if neg {
        t.skip(1)
    } else {
        t
    };
    if d.len() > 0 && all_digits(d) {
        Some((neg, digits_value(d)))
    } else {
        None
    }
}

/// The integer with the given sign and magnitude.
pub open spec fn signed(neg: bool, mag: nat) -> int {
    if neg {
        -mag
    } else {
        mag as int
    }
}

/// Every byte of a number token is ASCII.
pub proof fn lemma_number_ascii(src: Seq<u8>, s: int)
    requires
        0 <= s < src.len(),
        number_end(src, s) is Some,
    ensures
        s < number_end(src, s)->Some_0 <= src.len(),
        forall|t: int| s <= t < number_end(src, s)->Some_0 ==> #[trigger] src[t] < 0x80,
{
    let i0 = if src[s] == 0x2D {
        s + 1
    } else {
        s
    };
    lemma_digits_ascii(src, i0);
    let i1 = if src[i0] == 0x30 {
        i0 + 1
    } else {
        digits_end(src, i0)
    };
    let has_frac = i1 < src.len() && src[i1] == 0x2E;
    if has_frac {
        lemma_digits_ascii(src, i1 + 1);
    }
    let i2 = if has_frac {
        digits_end(src, i1 + 1)
    } else {
        i1
    };
    let has_exp = i2 < src.len() && (src[i2] == 0x65 || src[i2] == 0x45);
    if has_exp {
        let e0 = if i2 + 1 < src.len() && (src[i2 + 1] == 0x2B || src[i2 + 1] == 0x2D) {
            i2 + 2
        } else {
            i2 + 1
        };
        lemma_digits_ascii(src, e0);
    }
}

/// The digits run starting at `i` holds digits only.
pub proof fn lemma_digits_ascii(src: Seq<u8>, i: int)
    requires
        0 <= i,
    ensures
        i <= digits_end(src, i),
        i <= src.len() ==> digits_end(src, i) <= src.len(),
        forall|t: int| i <= t < digits_end(src, i) ==> is_digit(#[trigger] src[t]),
    decreases src.len() - i,
{
    if 0 <= i < src.len() && is_digit(src[i]) {
        lemma_digits_ascii(src, i + 1);
    }
}

/// Skipping whitespace stays within the source and stops at a byte that is not whitespace.
pub proof fn lemma_skip_ws(src: Seq<u8>, i: int)
    requires
        0 <= i <= src.len(),
    ensures
        i <= skip_ws(src, i) <= src.len(),
        skip_ws(src, i) < src.len() ==> !is_ws(src[skip_ws(src, i)]),
    decreases src.len() - i,
{
    if i < src.len() && is_ws(src[i]) {
        lemma_skip_ws(src, i + 1);
    }
}

/// Where a token lies: after the whitespace at `pos`, within the source; every token but
/// the end of input and a string (only its quote is looked at) has at least one byte.
pub proof fn lemma_lex_bounds(src: Seq<u8>, pos: int)
    requires
        0 <= pos <= src.len(),
    ensures
        lex(src, pos) matches Lexed::Tok { token, start, end } ==> {
            &&& pos <= start <= end <= src.len()
            &&& start == skip_ws(src, pos)
            &&& (token != Token::Eof && token != Token::String ==> start < end)
            &&& (token == Token::String ==> start < src.len() && src[start] == 0x22 && end
                == start)
            &&& (token == Token::Eof <==> start == src.len())
        },
{
    lemma_skip_ws(src, pos);
    let i = skip_ws(src, pos);
    if i < src.len() {
        let t = token_of_first_byte(src[i]);
        if t == Token::Number && !matches_at(src, i, true_word()) && !matches_at(
            src,
            i,
            false_word(),
        ) && !matches_at(src, i, null_word()) {
            if number_end(src, i) is Some {
                lemma_number_ascii(src, i);
            }
        }
    }
}

/// A string literal read from `p` ends after `p`, within the source.
pub proof fn lemma_scan_done_end(src: Seq<u8>, p: int, acc: Seq<u8>, tok: int)
    requires
        0 <= p,
    ensures
        scan_str(src, p, acc, tok) matches StrScan::Done { end, .. } ==> p < end <= src.len(),
    decreases src.len() - p,
{
    if p < src.len() && src[p] != 0x22 {
        if src[p] == 0x5C {
            if p + 1 < src.len() {
                let esc = src[p + 1];
                let q = p + 2;
                if esc == 0x75 {
                    if q + 4 <= src.len() && hex4(src, q) >= 0 {
                        let h = hex4(src, q);
                        let r = q + 4;
                        if 0xD800 <= h <= 0xDBFF {
                            if !(r + 6 > src.len() || src[r] != 0x5C || src[r + 1] != 0x75) && (0xDC00
                                <= hex4(src, r + 2) <= 0xDFFF) {
                                let cp = 0x10000 + (h - 0xD800) * 1024 + (hex4(src, r + 2) - 0xDC00);
                                lemma_scan_done_end(src, r + 6, acc + encode_scalar(cp as u32), tok);
                            }
                        } else if !(0xDC00 <= h <= 0xDFFF) {
                            lemma_scan_done_end(src, r, acc + encode_scalar(h as u32), tok);
                        }
                    }
                } else if short_escape(esc) >= 0 {
                    lemma_scan_done_end(src, q, acc.push(short_escape(esc) as u8), tok);
                }
            }
        } else if src[p] >= 0x20 {
            lemma_scan_done_end(src, p + 1, acc.push(src[p]), tok);
        }
    }
}

/// A string value read at its quote `start` ends after it, within the source.
pub proof fn lemma_string_end(src: Seq<u8>, start: int, cap: nat, borrow_plain: bool)
    requires
        0 <= start,
    ensures
        string_outcome(src, start, cap, borrow_plain) matches Ok((_, end)) ==> start < end
            <= src.len(),
        string_scanned(src, start, cap, borrow_plain) matches Ok((_, end)) ==> start < end
            <= src.len(),
{
    lemma_scan_done_end(src, start + 1, Seq::empty(), start);
}

/// Bytes below `0x80` are valid UTF-8.
pub proof fn lemma_ascii_valid_utf8(b: Seq<u8>)
    requires
        forall|t: int| 0 <= t < b.len() ==> #[trigger] b[t] < 0x80,
    ensures
        valid_utf8(b),
{
    assert forall|t: int| 0 <= 0 <= t < b.len() <= b.len() implies #[trigger] is_leading_byte_width_1(b[t]) by {
        assert(b[t] < 0x80);
    }
    assert(valid_utf8(b.subrange(0, 0))) by {
        assert(b.subrange(0, 0).len() == 0);
    }
    partial_valid_utf8_extend_ascii_block(b, 0, b.len() as int);
    assert(b.subrange(0, b.len() as int) =~= b);
}

} // verus!
