use vstd::prelude::*;

pub use crate::values::Deserialize;

use crate::error::{ParseError, ParseErrorKind};
use crate::grammar::{int_parts, item_outcome, key_outcome_with, member_outcome, member_outcome_with, signed, string_value_outcome, bool_outcome, expect_outcome, finish_outcome, lemma_ascii_valid_utf8, lemma_number_ascii, digits_end, false_word, hex4, hex_val, is_digit, is_plain_str_byte, is_ws, lemma_scan_extends, lemma_scan_plain_run, lex, matches_at, null_word, number_end, peek_kind, plain_end, scan_str, short_escape, skip_ws, string_scanned, token_of_first_byte, true_word, unexpected, Lexed, StrScan};
use crate::number::{parse_int_text, IntParse};
use crate::text::str_from_utf8;
use vstd::string::*;
use vstd::utf8::{encode_scalar, is_scalar};

verus! {

/// The kinds of lexical token.
#[derive(Copy, Clone, PartialEq, Eq, Debug, Structural)]
pub enum Token {
    Invalid,
    Eof,
    OpenCurly,
    CloseCurly,
    OpenBracket,
    CloseBracket,
    Comma,
    Colon,
    True,
    False,
    Null,
    String,
    Number,
}

impl Token {
    pub open spec fn spec_name(self) -> &'static str {
        match self {
            Token::Invalid => "invalid",
            Token::Eof => "end of input",
            Token::OpenCurly => "{",
            Token::CloseCurly => "}",
            Token::OpenBracket => "[",
            Token::CloseBracket => "]",
            Token::Comma => ",",
            Token::Colon => ":",
            Token::True => "true",
            Token::False => "false",
            Token::Null => "null",
            Token::String => "string",
            Token::Number => "number",
        }
    }

    /// How the token is named in error messages.
    pub fn name(self) -> (s: &'static str)
        ensures
            s == self.spec_name(),
    {
        match self {
            Token::Invalid => "invalid",
            Token::Eof => "end of input",
            Token::OpenCurly => "{",
            Token::CloseCurly => "}",
            Token::OpenBracket => "[",
            Token::CloseBracket => "]",
            Token::Comma => ",",
            Token::Colon => ":",
            Token::True => "true",
            Token::False => "false",
            Token::Null => "null",
            Token::String => "string",
            Token::Number => "number",
        }
    }
}

/// Immediate-mode JSON parser. Borrows the source (`'src`) and a scratch buffer
/// (`'buf`) into which string values are decoded.
pub struct Parser<'src, 'buf> {
    src: &'src [u8],
    buf: &'buf mut [u8],
    pos: usize,
    token_start: usize,
    key_start: usize,
    /// The innermost container was just opened: the next item or member is its first.
    first: bool,
}

impl<'src, 'buf> Parser<'src, 'buf> {
    /// The source bytes.
    pub closed spec fn source(&self) -> Seq<u8> {
        self.src@
    }

    /// How many bytes of decoded string the scratch buffer holds.
    pub closed spec fn capacity(&self) -> nat {
        self.buf@.len()
    }

    /// The position of the next unread byte.
    pub closed spec fn position(&self) -> int {
        self.pos as int
    }

    /// The start of the most recently attempted token.
    pub closed spec fn last_token_start(&self) -> int {
        self.token_start as int
    }

    /// The start of the most recently parsed object key.
    pub closed spec fn last_key_start(&self) -> int {
        self.key_start as int
    }

    /// A container was just opened and nothing of it has been read.
    pub closed spec fn at_first(&self) -> bool {
        self.first
    }

    #[verifier::type_invariant]
    closed spec fn inv(&self) -> bool {
        &&& self.pos <= self.src@.len()
        &&& self.token_start <= self.src@.len()
        &&& self.key_start <= self.src@.len()
    }

    pub fn new(src: &'src [u8], buf: &'buf mut [u8]) -> (p: Self)
        ensures
            p.source() == src@,
            p.capacity() == old(buf)@.len(),
            p.position() == 0,
            p.last_token_start() == 0,
            p.last_key_start() == 0,
            !p.at_first(),
    {
        Parser { src, buf, pos: 0, token_start: 0, key_start: 0, first: false }
    }

    /// The read position lies within the source.
    pub(crate) fn position_in_source(&self)
        ensures
            0 <= self.position() <= self.source().len(),
    {
        proof {
            use_type_invariant(self);
        }
    }

    /// Byte offset of the start of the most recently attempted token.
    pub fn error_offset(&self) -> (r: usize)
        ensures
            r == self.last_token_start(),
    {
        self.token_start
    }

    /// The first position at or after `i` that does not hold whitespace.
    fn ws_end(&self, i: usize) -> (j: usize)
        requires
            i <= self.source().len(),
        ensures
            j == skip_ws(self.source(), i as int),
            i <= j <= self.source().len(),
    {
        let mut j = i;
        while j < self.src.len() && is_ws_byte(self.src[j])
            invariant
                i <= j <= self.src@.len(),
                skip_ws(self.src@, j as int) == skip_ws(self.src@, i as int),
            decreases self.src@.len() - j,
        {
            j = j + 1;
        }
        j
    }

    /// Peek at the kind of the next token without advancing the parser.
    fn peek_token(&self) -> (t: Token)
        ensures
            t == peek_kind(self.source(), self.position()),
    {
        proof {
            use_type_invariant(self);
        }
        let i = self.ws_end(self.pos);
        if i >= self.src.len() {
            Token::Eof
        } else {
            first_byte_token(self.src[i])
        }
    }

    /// The first position at or after `i` that does not hold a digit.
    fn digits_end_at(&self, i: usize) -> (j: usize)
        requires
            i <= self.source().len(),
        ensures
            j == digits_end(self.source(), i as int),
            i <= j <= self.source().len(),
    {
        let mut j = i;
        while j < self.src.len() && is_digit_byte(self.src[j])
            invariant
                i <= j <= self.src@.len(),
                digits_end(self.src@, j as int) == digits_end(self.src@, i as int),
            decreases self.src@.len() - j,
        {
            j = j + 1;
        }
        j
    }

    /// The end of the number starting at `s`, if the bytes there form one.
    fn number_token_end(&self, s: usize) -> (r: Option<usize>)
        requires
            s < self.source().len(),
        ensures
            r is Some <==> number_end(self.source(), s as int) is Some,
            r matches Some(e) ==> number_end(self.source(), s as int) == Some(e as int) && e
                <= self.source().len(),
    {
        let len = self.src.len();
        let i0 = if self.src[s] == 0x2D {
            s + 1
        } else {
            s
        };
        if !(i0 < len && is_digit_byte(self.src[i0])) {
            return None;
        }
        let i1 = if self.src[i0] == 0x30 {
            i0 + 1
        } else {
            self.digits_end_at(i0)
        };
        if i1 < len && is_digit_byte(self.src[i1]) {
            return None;
        }
        let has_frac = i1 < len && self.src[i1] == 0x2E;
        let i2 = if has_frac {
            self.digits_end_at(i1 + 1)
        } else {
            i1
        };
        if has_frac && i2 == i1 + 1 {
            return None;
        }
        let has_exp = i2 < len && (self.src[i2] == 0x65 || self.src[i2] == 0x45);
        if !has_exp {
            return Some(i2);
        }
        let e0 = if i2 + 1 < len && (self.src[i2 + 1] == 0x2B || self.src[i2 + 1] == 0x2D) {
            i2 + 2
        } else {
            i2 + 1
        };
        let i3 = self.digits_end_at(e0);
        if i3 == e0 {
            None
        } else {
            Some(i3)
        }
    }

    /// Whether `word` occurs in the source at `i`.
    fn matches_word(&self, i: usize, word: &[u8]) -> (r: bool)
        requires
            i <= self.source().len(),
        ensures
            r == matches_at(self.source(), i as int, word@),
    {
        if word.len() > self.src.len() - i {
            return false;
        }
        let mut k: usize = 0;
        while k < word.len()
            invariant
                0 <= k <= word@.len(),
                i + word@.len() <= self.src@.len(),
                self.src@.len() == self.src.len(),
                forall|t: int| 0 <= t < k ==> self.src@[i + t] == word@[t],
            decreases word@.len() - k,
        {
            if self.src[i + k] != word[k] {
                assert(self.src@.subrange(i as int, i + word@.len())[k as int] != word@[k as int]);
                return false;
            }
            k = k + 1;
        }
        assert(self.src@.subrange(i as int, i + word@.len()) =~= word@);
        true
    }

    /// Reads the next token. A string token is only recognised by its opening quote:
    /// the parser is left on that quote.
    fn lex_token(&mut self) -> (r: Result<Token, ParseError>)
        ensures
            final(self).source() == old(self).source(),
            final(self).scratch() == old(self).scratch(),
            final(self).capacity() == old(self).capacity(),
            final(self).last_key_start() == old(self).last_key_start(),
            final(self).at_first() == old(self).at_first(),
            final(self).last_token_start() == skip_ws(old(self).source(), old(self).position()),
            match lex(old(self).source(), old(self).position()) {
                Lexed::Tok { token, start, end } => r == Ok::<Token, ParseError>(token)
                    && final(self).position() == end,
                Lexed::Fail { err } => r == Err::<Token, ParseError>(err)
                    && final(self).position() == skip_ws(old(self).source(), old(self).position()),
            },
    {
        proof {
            use_type_invariant(&*self);
        }
        let i = self.ws_end(self.pos);
        self.pos = i;
        self.token_start = i;
        if i >= self.src.len() {
            return Ok(Token::Eof);
        }
        let t = first_byte_token(self.src[i]);
        match t {
            Token::OpenCurly | Token::CloseCurly | Token::OpenBracket | Token::CloseBracket
            | Token::Comma | Token::Colon => {
                self.pos = i + 1;
                return Ok(t);
            },
            Token::String => {
                return Ok(t);
            },
            _ => {},
        }
        let tw: [u8; 4] = [0x74, 0x72, 0x75, 0x65];
        assert(tw@ =~= true_word());
        if self.matches_word(i, &tw) {
            self.pos = i + 4;
            return Ok(Token::True);
        }
        let fw: [u8; 5] = [0x66, 0x61, 0x6C, 0x73, 0x65];
        assert(fw@ =~= false_word());
        if self.matches_word(i, &fw) {
            self.pos = i + 5;
            return Ok(Token::False);
        }
        let nw: [u8; 4] = [0x6E, 0x75, 0x6C, 0x6C];
        assert(nw@ =~= null_word());
        if self.matches_word(i, &nw) {
            self.pos = i + 4;
            return Ok(Token::Null);
        }
        if t == Token::Number {
            match self.number_token_end(i) {
                Some(e) => {
                    self.pos = e;
                    Ok(Token::Number)
                },
                None => Err(ParseError::at(
                    i,
                    ParseErrorKind::UnexpectedToken { expected: "value", got: "invalid number" },
                )),
            }
        } else {
            Err(ParseError::at(
                i,
                ParseErrorKind::UnexpectedToken { expected: "value", got: "invalid character" },
            ))
        }
    }

    /// The scratch buffer's contents.
    pub closed spec fn scratch(&self) -> Seq<u8> {
        self.buf@
    }

    /// The four hex digits at `q`, or -1.
    fn hex4_at(&self, q: usize) -> (v: i32)
        requires
            q + 4 <= self.source().len(),
        ensures
            v == hex4(self.source(), q as int),
            -1 <= v <= 0xFFFF,
    {
        assert(self.src@.len() == self.src.len());
        let sub = &self.src[q..q + 4];
        proof {
            assert(sub@[0] == self.src@[q as int]);
            assert(sub@[1] == self.src@[q + 1]);
            assert(sub@[2] == self.src@[q + 2]);
            assert(sub@[3] == self.src@[q + 3]);
        }
        match parse_hex4(sub) {
            Some(v) => v as i32,
            None => -1,
        }
    }

    /// Decodes the escape whose backslash is at `p`: the bytes it stands for and the
    /// position after it, or the error it gives.
    fn decode_escape(&self, p: usize, Ghost(tok): Ghost<int>) -> (r: Result<
        ([u8; 4], usize, usize),
        ParseError,
    >)
        requires
            p < self.source().len(),
            self.source()[p as int] == 0x5C,
        ensures
            r matches Ok((b, n, next)) ==> n <= 4 && p < next <= self.source().len() && forall|
                acc: Seq<u8>,
            |
                #![trigger scan_str(self.source(), p as int, acc, tok)]
                scan_str(self.source(), p as int, acc, tok) == scan_str(
                    self.source(),
                    next as int,
                    acc + b@.take(n as int),
                    tok,
                ),
            r matches Err(e) ==> forall|acc: Seq<u8>|
                #![trigger scan_str(self.source(), p as int, acc, tok)]
                scan_str(self.source(), p as int, acc, tok) == (StrScan::Fail {
                    kind: e.kind,
                    offset: e.offset as int,
                    content: acc,
                }),
    {
        let len = self.src.len();
        if p + 1 >= len {
            return Err(ParseError::at(p + 1, ParseErrorKind::UnexpectedEof));
        }
        let esc = self.src[p + 1];
        if esc == 0x75 {
            return self.decode_unicode_escape(p, Ghost(tok));
        }
        let q = p + 2;
        match short_escape_byte(esc) {
            Some(c) => {
                let b: [u8; 4] = [c, 0, 0, 0];
                assert forall|acc: Seq<u8>|
                    #![trigger scan_str(self.source(), p as int, acc, tok)]
                    scan_str(self.source(), p as int, acc, tok) == scan_str(
                        self.source(),
                        q as int,
                        acc + b@.take(1),
                        tok,
                    ) by {
                    assert(acc + b@.take(1) =~= acc.push(c));
                }
                Ok((b, 1, q))
            },
            None => Err(ParseError::at(p + 1, ParseErrorKind::InvalidEscape(esc))),
        }
    }

    /// Decodes the `\uXXXX` escape (or surrogate pair of them) whose backslash is at `p`.
    #[verifier::rlimit(30)]
    fn decode_unicode_escape(&self, p: usize, Ghost(tok): Ghost<int>) -> (r: Result<
        ([u8; 4], usize, usize),
        ParseError,
    >)
        requires
            p + 1 < self.source().len(),
            self.source()[p as int] == 0x5C,
            self.source()[p + 1] == 0x75,
        ensures
            r matches Ok((b, n, next)) ==> n <= 4 && p < next <= self.source().len() && forall|
                acc: Seq<u8>,
            |
                #![trigger scan_str(self.source(), p as int, acc, tok)]
                scan_str(self.source(), p as int, acc, tok) == scan_str(
                    self.source(),
                    next as int,
                    acc + b@.take(n as int),
                    tok,
                ),
            r matches Err(e) ==> forall|acc: Seq<u8>|
                #![trigger scan_str(self.source(), p as int, acc, tok)]
                scan_str(self.source(), p as int, acc, tok) == (StrScan::Fail {
                    kind: e.kind,
                    offset: e.offset as int,
                    content: acc,
                }),
    {
        let len = self.src.len();
        let q = p + 2;
        if len - q < 4 {
            return Err(ParseError::at(q, ParseErrorKind::UnexpectedEof));
        }
        let h = self.hex4_at(q);
        if h < 0 {
            return Err(ParseError::at(q, ParseErrorKind::InvalidEscape(0x75)));
        }
        let r = q + 4;
        if 0xDC00 <= h && h <= 0xDFFF {
            return Err(ParseError::at(q, ParseErrorKind::InvalidEscape(0x75)));
        }
        if 0xD800 <= h && h <= 0xDBFF {
            if len - r < 6 || self.src[r] != 0x5C || self.src[r + 1] != 0x75 {
                return Err(ParseError::at(r, ParseErrorKind::InvalidEscape(0x75)));
            }
            let low = self.hex4_at(r + 2);
            if !(0xDC00 <= low && low <= 0xDFFF) {
                return Err(ParseError::at(r + 2, ParseErrorKind::InvalidEscape(0x75)));
            }
            let cp = (0x10000 + (h - 0xD800) * 1024 + (low - 0xDC00)) as u32;
            let (b, n) = encode_utf8_cp(cp);
            Ok((b, n, r + 6))
        } else {
            let cp = h as u32;
            let (b, n) = encode_utf8_cp(cp);
            Ok((b, n, r))
        }
    }

    /// The first position at or after `i` that does not hold a plain string byte.
    fn plain_end_at(&self, i: usize) -> (j: usize)
        requires
            i <= self.source().len(),
        ensures
            j == plain_end(self.source(), i as int),
            i <= j <= self.source().len(),
            forall|t: int| i <= t < j ==> is_plain_str_byte(#[trigger] self.source()[t]),
            j < self.source().len() ==> !is_plain_str_byte(self.source()[j as int]),
    {
        let mut j = i;
        while j < self.src.len() && is_plain_byte(self.src[j])
            invariant
                i <= j <= self.src@.len(),
                plain_end(self.src@, j as int) == plain_end(self.src@, i as int),
                forall|t: int| i <= t < j ==> is_plain_str_byte(#[trigger] self.src@[t]),
            decreases self.src@.len() - j,
        {
            j = j + 1;
        }
        j
    }

    /// Copies `b` into the scratch buffer at `at`.
    fn scratch_put(&mut self, at: usize, b: &[u8])
        requires
            at + b@.len() <= old(self).capacity(),
        ensures
            final(self).source() == old(self).source(),
            final(self).capacity() == old(self).capacity(),
            final(self).position() == old(self).position(),
            final(self).last_token_start() == old(self).last_token_start(),
            final(self).last_key_start() == old(self).last_key_start(),
            final(self).at_first() == old(self).at_first(),
            final(self).scratch().take(at + b@.len()) == old(self).scratch().take(at as int) + b@,
    {
        proof {
            use_type_invariant(&*self);
        }
        let ghost old_buf = self.buf@;
        let mut i: usize = 0;
        while i < b.len()
            invariant
                at + b@.len() <= self.buf@.len(),
                at + b.len() <= self.buf.len(),
                self.pos <= self.src@.len(),
                self.token_start <= self.src@.len(),
                self.key_start <= self.src@.len(),
                self.buf@.len() == old_buf.len(),
                self.src == old(self).src,
                self.pos == old(self).pos,
                self.token_start == old(self).token_start,
                self.key_start == old(self).key_start,
                self.first == old(self).first,
                old_buf == old(self).buf@,
                0 <= i <= b.len(),
                forall|k: int| 0 <= k < at ==> self.buf@[k] == old_buf[k],
                forall|k: int| 0 <= k < i ==> self.buf@[at + k] == b@[k],
            decreases b.len() - i,
        {
            self.buf[at + i] = b[i];
            i = i + 1;
        }
        assert(self.buf@.take(at + b@.len()) =~= old_buf.take(at as int) + b@);
    }

    /// Reads the string literal whose opening quote is at `start`, decoding it into the
    /// scratch buffer, or, when `borrow_plain` holds and it has no escape, leaving it in
    /// the source.
    #[verifier::rlimit(30)]
    fn scan_string(&mut self, start: usize, borrow_plain: bool) -> (r: Result<StrLoc, ParseError>)
        requires
            start < old(self).source().len(),
            old(self).source()[start as int] == 0x22,
        ensures
            final(self).source() == old(self).source(),
            final(self).capacity() == old(self).capacity(),
            final(self).position() == old(self).position(),
            final(self).last_token_start() == old(self).last_token_start(),
            final(self).last_key_start() == old(self).last_key_start(),
            final(self).at_first() == old(self).at_first(),
            r matches Ok(loc) ==> start + 2 <= loc.end <= old(self).source().len() && (loc.borrowed
                ==> borrow_plain) && (!loc.borrowed ==> loc.len <= old(self).capacity()),
            match string_scanned(old(self).source(), start as int, old(self).capacity(), borrow_plain) {
                Ok((content, end)) => r matches Ok(loc) && loc.end == end && start + 2 <= end
                    <= old(self).source().len() && if loc.borrowed {
                    old(self).source().subrange(start + 1, end - 1) == content
                } else {
                    loc.len <= old(self).capacity() && final(self).scratch().take(loc.len as int)
                        == content
                },
                Err(e) => r == Err::<StrLoc, ParseError>(e),
            },
    {
        proof {
            use_type_invariant(&*self);
        }
        let ghost src = self.src@;
        let ghost cap = self.buf@.len();
        let s = self.src;
        let len = s.len();
        let cap_x = self.buf.len();
        let q = self.plain_end_at(start + 1);
        proof {
            lemma_scan_plain_run(src, start + 1, q as int, Seq::empty(), start as int);
            assert(Seq::<u8>::empty() + src.subrange(start + 1, q as int) =~= src.subrange(
                start + 1,
                q as int,
            ));
            lemma_scan_extends(src, q as int, src.subrange(start + 1, q as int), start as int);
        }
        let run = q - (start + 1);
        let escaped = q < len && s[q] == 0x5C;
        let borrowed = borrow_plain && !escaped;
        if !borrowed && run > cap_x {
            return Err(ParseError::at(start, ParseErrorKind::StringBufferOverflow));
        }
        if q >= len {
            return Err(ParseError::at(start, ParseErrorKind::UnexpectedEof));
        }
        if s[q] == 0x22 {
            if borrowed {
                return Ok(StrLoc { end: q + 1, borrowed: true, len: run });
            }
            self.scratch_put(0, &s[start + 1..q]);
            return Ok(StrLoc { end: q + 1, borrowed: false, len: run });
        }
        if s[q] != 0x5C {
            return Err(ParseError::at(
                q,
                ParseErrorKind::UnexpectedToken { expected: "string", got: "control character" },
            ));
        }
        self.scratch_put(0, &s[start + 1..q]);
        proof {
            assert(self.buf@.take(run as int) =~= src.subrange(start + 1, q as int));
        }
        let mut p = q;
        let mut l = run;
        while p < len
            invariant
                self.src@ == src,
                src == old(self).src@,
                cap == old(self).buf@.len(),
                s@ == src,
                len == src.len(),
                self.buf@.len() == cap,
                cap_x == cap,
                self.pos == old(self).pos,
                self.token_start == old(self).token_start,
                self.key_start == old(self).key_start,
                self.first == old(self).first,
                start + 1 <= p <= len,
                l <= cap,
                scan_str(src, start + 1, Seq::empty(), start as int) == scan_str(
                    src,
                    p as int,
                    self.buf@.take(l as int),
                    start as int,
                ),
                string_scanned(src, start as int, cap, borrow_plain) == string_scanned(
                    src,
                    start as int,
                    cap,
                    false,
                ),
            decreases len - p,
        {
            let ghost acc = self.buf@.take(l as int);
            let c = s[p];
            if c == 0x22 {
                return Ok(StrLoc { end: p + 1, borrowed: false, len: l });
            } else if c == 0x5C {
                match self.decode_escape(p, Ghost(start as int)) {
                    Err(e) => {
                        return Err(e);
                    },
                    Ok((b, n, next)) => {
                        proof {
                            lemma_scan_extends(src, next as int, acc + b@.take(n as int), start as int);
                        }
                        if n > cap_x - l {
                            return Err(ParseError::at(start, ParseErrorKind::StringBufferOverflow));
                        }
                        self.scratch_put(l, &b[0..n]);
                        proof {
                            assert(b@.subrange(0, n as int) =~= b@.take(n as int));
                            assert(self.buf@.take(l + n) =~= acc + b@.take(n as int));
                        }
                        l = l + n;
                        p = next;
                    },
                }
            } else if c < 0x20 {
                return Err(ParseError::at(
                    p,
                    ParseErrorKind::UnexpectedToken { expected: "string", got: "control character" },
                ));
            } else {
                let q2 = self.plain_end_at(p);
                proof {
                    lemma_scan_plain_run(src, p as int, q2 as int, acc, start as int);
                    lemma_scan_extends(src, q2 as int, acc + src.subrange(p as int, q2 as int), start as int);
                }
                if q2 - p > cap_x - l {
                    return Err(ParseError::at(start, ParseErrorKind::StringBufferOverflow));
                }
                self.scratch_put(l, &s[p..q2]);
                proof {
                    assert(self.buf@.take(l + (q2 - p)) =~= acc + src.subrange(p as int, q2 as int));
                }
                l = l + (q2 - p);
                p = q2;
            }
        }
        Err(ParseError::at(start, ParseErrorKind::UnexpectedEof))
    }

    /// Records whether the innermost container was just opened.
    fn set_first(&mut self, v: bool)
        ensures
            final(self).source() == old(self).source(),
            final(self).capacity() == old(self).capacity(),
            final(self).scratch() == old(self).scratch(),
            final(self).position() == old(self).position(),
            final(self).last_token_start() == old(self).last_token_start(),
            final(self).last_key_start() == old(self).last_key_start(),
            final(self).at_first() == v,
    {
        proof {
            use_type_invariant(&*self);
        }
        self.first = v;
    }

    /// Reads a token of kind `want`, which is not a string.
    fn expect(&mut self, want: Token) -> (r: Result<(), ParseError>)
        requires
            want != Token::String,
        ensures
            final(self).source() == old(self).source(),
            final(self).scratch() == old(self).scratch(),
            final(self).capacity() == old(self).capacity(),
            final(self).last_token_start() == skip_ws(old(self).source(), old(self).position()),
            final(self).last_key_start() == old(self).last_key_start(),
            final(self).at_first() == old(self).at_first(),
            match expect_outcome(old(self).source(), old(self).position(), want) {
                Ok((start, end)) => r is Ok && final(self).position() == end
                    && final(self).last_token_start() == start,
                Err(e) => r == Err::<(), ParseError>(e),
            },
    {
        match self.lex_token() {
            Err(e) => Err(e),
            Ok(t) => {
                if t == want {
                    Ok(())
                } else {
                    Err(ParseError::at(
                        self.token_start,
                        ParseErrorKind::UnexpectedToken { expected: want.name(), got: t.name() },
                    ))
                }
            },
        }
    }

    /// Parse `{`.
    pub fn object_begin(&mut self) -> (r: Result<(), ParseError>)
        ensures
            final(self).source() == old(self).source(),
            final(self).capacity() == old(self).capacity(),
            final(self).last_token_start() == skip_ws(old(self).source(), old(self).position()),
            match expect_outcome(old(self).source(), old(self).position(), Token::OpenCurly) {
                Ok((start, end)) => r is Ok && final(self).position() == end && final(self).at_first(),
                Err(e) => r == Err::<(), ParseError>(e),
            },
    {
        let r = self.expect(Token::OpenCurly);
        if r.is_ok() {
            self.set_first(true);
        }
        r
    }

    /// Parse `}`.
    pub fn object_end(&mut self) -> (r: Result<(), ParseError>)
        ensures
            final(self).source() == old(self).source(),
            final(self).capacity() == old(self).capacity(),
            final(self).last_token_start() == skip_ws(old(self).source(), old(self).position()),
            match expect_outcome(old(self).source(), old(self).position(), Token::CloseCurly) {
                Ok((start, end)) => r is Ok && final(self).position() == end && !final(self).at_first(),
                Err(e) => r == Err::<(), ParseError>(e),
            },
    {
        let r = self.expect(Token::CloseCurly);
        if r.is_ok() {
            self.set_first(false);
        }
        r
    }

    /// Parse `[`.
    pub fn array_begin(&mut self) -> (r: Result<(), ParseError>)
        ensures
            final(self).source() == old(self).source(),
            final(self).capacity() == old(self).capacity(),
            final(self).last_token_start() == skip_ws(old(self).source(), old(self).position()),
            match expect_outcome(old(self).source(), old(self).position(), Token::OpenBracket) {
                Ok((start, end)) => r is Ok && final(self).position() == end && final(self).at_first(),
                Err(e) => r == Err::<(), ParseError>(e),
            },
    {
        let r = self.expect(Token::OpenBracket);
        if r.is_ok() {
            self.set_first(true);
        }
        r
    }

    /// Parse `]`.
    pub fn array_end(&mut self) -> (r: Result<(), ParseError>)
        ensures
            final(self).source() == old(self).source(),
            final(self).capacity() == old(self).capacity(),
            final(self).last_token_start() == skip_ws(old(self).source(), old(self).position()),
            match expect_outcome(old(self).source(), old(self).position(), Token::CloseBracket) {
                Ok((start, end)) => r is Ok && final(self).position() == end && !final(self).at_first(),
                Err(e) => r == Err::<(), ParseError>(e),
            },
    {
        let r = self.expect(Token::CloseBracket);
        if r.is_ok() {
            self.set_first(false);
        }
        r
    }

    /// Parse `null`.
    pub fn null(&mut self) -> (r: Result<(), ParseError>)
        ensures
            final(self).source() == old(self).source(),
            final(self).capacity() == old(self).capacity(),
            final(self).last_token_start() == skip_ws(old(self).source(), old(self).position()),
            match expect_outcome(old(self).source(), old(self).position(), Token::Null) {
                Ok((start, end)) => r is Ok && final(self).position() == end && !final(self).at_first(),
                Err(e) => r == Err::<(), ParseError>(e),
            },
    {
        let r = self.expect(Token::Null);
        if r.is_ok() {
            self.set_first(false);
        }
        r
    }

    /// Parse `true` or `false`, returning the value.
    pub fn bool_val(&mut self) -> (r: Result<bool, ParseError>)
        ensures
            final(self).source() == old(self).source(),
            final(self).capacity() == old(self).capacity(),
            final(self).last_token_start() == skip_ws(old(self).source(), old(self).position()),
            match bool_outcome(old(self).source(), old(self).position()) {
                Ok((v, end)) => r == Ok::<bool, ParseError>(v) && final(self).position() == end
                    && !final(self).at_first(),
                Err(e) => r == Err::<bool, ParseError>(e),
            },
    {
        match self.lex_token() {
            Err(e) => Err(e),
            Ok(t) => {
                if t == Token::True {
                    self.set_first(false);
                    Ok(true)
                } else if t == Token::False {
                    self.set_first(false);
                    Ok(false)
                } else {
                    Err(ParseError::at(
                        self.token_start,
                        ParseErrorKind::UnexpectedToken { expected: "boolean", got: t.name() },
                    ))
                }
            },
        }
    }

    /// Parse a JSON number and return its text, as it stands in the source.
    /// No numeric conversion is performed.
    pub fn number_str(&mut self) -> (r: Result<&'src str, ParseError>)
        ensures
            final(self).source() == old(self).source(),
            final(self).capacity() == old(self).capacity(),
            final(self).last_token_start() == skip_ws(old(self).source(), old(self).position()),
            match expect_outcome(old(self).source(), old(self).position(), Token::Number) {
                Ok((start, end)) => r matches Ok(s) && s.spec_bytes() == old(self).source().subrange(
                    start,
                    end,
                ) && final(self).position() == end && !final(self).at_first(),
                Err(e) => r == Err::<&str, ParseError>(e),
            },
    {
        match self.expect(Token::Number) {
            Err(e) => Err(e),
            Ok(()) => {
                proof {
                    use_type_invariant(&*self);
                    lemma_number_ascii(self.src@, self.token_start as int);
                    lemma_ascii_valid_utf8(self.src@.subrange(self.token_start as int, self.pos as int));
                }
                let s = self.src;
                self.set_first(false);
                match str_from_utf8(&s[self.token_start..self.pos]) {
                    Some(t) => Ok(t),
                    None => Err(ParseError::at(self.token_start, ParseErrorKind::InvalidUtf8)),
                }
            },
        }
    }

    /// Requires that nothing but whitespace is left in the source.
    pub fn finish(&mut self) -> (r: Result<(), ParseError>)
        ensures
            final(self).source() == old(self).source(),
            final(self).capacity() == old(self).capacity(),
            r == finish_outcome(old(self).source(), old(self).position()),
    {
        match self.lex_token() {
            Err(e) => Err(e),
            Ok(t) => {
                if t == Token::Eof {
                    Ok(())
                } else {
                    Err(ParseError::at(
                        self.token_start,
                        ParseErrorKind::UnexpectedToken { expected: "end of input", got: t.name() },
                    ))
                }
            },
        }
    }

    /// Moves the read position to `p`.
    fn set_pos(&mut self, p: usize)
        requires
            p <= old(self).source().len(),
        ensures
            final(self).source() == old(self).source(),
            final(self).capacity() == old(self).capacity(),
            final(self).scratch() == old(self).scratch(),
            final(self).position() == p,
            final(self).last_token_start() == old(self).last_token_start(),
            final(self).last_key_start() == old(self).last_key_start(),
            final(self).at_first() == old(self).at_first(),
    {
        proof {
            use_type_invariant(&*self);
        }
        self.pos = p;
    }

    /// Records where the last token started.
    fn set_token_start(&mut self, p: usize)
        requires
            p <= old(self).source().len(),
        ensures
            final(self).source() == old(self).source(),
            final(self).capacity() == old(self).capacity(),
            final(self).scratch() == old(self).scratch(),
            final(self).position() == old(self).position(),
            final(self).last_token_start() == p,
            final(self).last_key_start() == old(self).last_key_start(),
            final(self).at_first() == old(self).at_first(),
    {
        proof {
            use_type_invariant(&*self);
        }
        self.token_start = p;
    }

    /// Records where the last object key started.
    fn set_key_start(&mut self, p: usize)
        requires
            p <= old(self).source().len(),
        ensures
            final(self).source() == old(self).source(),
            final(self).capacity() == old(self).capacity(),
            final(self).scratch() == old(self).scratch(),
            final(self).position() == old(self).position(),
            final(self).last_token_start() == old(self).last_token_start(),
            final(self).last_key_start() == p,
            final(self).at_first() == old(self).at_first(),
    {
        proof {
            use_type_invariant(&*self);
        }
        self.key_start = p;
    }

    /// Parse a JSON string, decoding escape sequences into the scratch buffer.
    ///
    /// The returned string lives in the scratch buffer and is overwritten by the next
    /// call that decodes a string.
    pub fn string(&mut self) -> (r: Result<&str, ParseError>)
        ensures
            final(self).source() == old(self).source(),
            final(self).capacity() == old(self).capacity(),
            final(self).last_token_start() == skip_ws(old(self).source(), old(self).position()),
            match string_value_outcome(old(self).source(), old(self).position(), old(self).capacity()) {
                Ok((content, end)) => r matches Ok(s) && s.spec_bytes() == content
                    && final(self).position() == end && !final(self).at_first()
                    && final(self).scratch().take(content.len() as int) == content,
                Err(e) => r == Err::<&str, ParseError>(e),
            },
    {
        match self.lex_token() {
            Err(e) => Err(e),
            Ok(t) => {
                if t != Token::String {
                    return Err(ParseError::at(
                        self.token_start,
                        ParseErrorKind::UnexpectedToken { expected: "string", got: t.name() },
                    ));
                }
                let start = self.token_start;
                match self.scan_string(start, false) {
                    Err(e) => Err(e),
                    Ok(loc) => {
                        self.set_pos(loc.end);
                        self.set_first(false);
                        match str_from_utf8(&self.buf[0..loc.len]) {
                            Some(s) => Ok(s),
                            None => Err(ParseError::at(start, ParseErrorKind::InvalidUtf8)),
                        }
                    },
                }
            },
        }
    }

    /// Reads the object key whose opening quote is at `k`, and the `:` after it.
    fn read_key(&mut self, k: usize, borrow: bool) -> (r: Result<Option<&str>, ParseError>)
        requires
            k < old(self).source().len(),
            old(self).source()[k as int] == 0x22,
        ensures
            final(self).source() == old(self).source(),
            final(self).capacity() == old(self).capacity(),
            match key_outcome_with(old(self).source(), k as int, old(self).capacity(), borrow) {
                Ok((key, end)) => r matches Ok(Some(s)) && s.spec_bytes() == key
                    && final(self).position() == end && final(self).last_key_start() == k
                    && !final(self).at_first() && (!borrow ==> final(self).scratch().take(
                    key.len() as int,
                ) == key),
                Err(e) => r == Err::<Option<&str>, ParseError>(e),
            },
    {
        let s = self.src;
        match self.scan_string(k, borrow) {
            Err(e) => Err(e),
            Ok(loc) => {
                self.set_pos(loc.end);
                match self.expect(Token::Colon) {
                    Err(e) => Err(e),
                    Ok(()) => {
                        self.set_key_start(k);
                        self.set_first(false);
                        let bytes: &[u8] = if loc.borrowed {
                            &s[k + 1..loc.end - 1]
                        } else {
                            &self.buf[0..loc.len]
                        };
                        match str_from_utf8(bytes) {
                            Some(st) => Ok(Some(st)),
                            None => Err(ParseError::at(k, ParseErrorKind::InvalidUtf8)),
                        }
                    },
                }
            },
        }
    }

    /// Reads the next member's key and its `:`, or `None` at `}`; see [`member_outcome_with`].
    fn next_member(&mut self, borrow: bool) -> (r: Result<Option<&str>, ParseError>)
        ensures
            final(self).source() == old(self).source(),
            final(self).capacity() == old(self).capacity(),
            match member_outcome_with(
                old(self).source(),
                old(self).position(),
                old(self).at_first(),
                old(self).capacity(),
                borrow,
            ) {
                Ok(None) => r == Ok::<Option<&str>, ParseError>(None) && final(self).position()
                    == old(self).position() && final(self).at_first() == old(self).at_first(),
                Ok(Some((key, k, end))) => r matches Ok(Some(s)) && s.spec_bytes() == key
                    && final(self).position() == end && final(self).last_key_start() == k
                    && !final(self).at_first() && (!borrow ==> final(self).scratch().take(
                    key.len() as int,
                ) == key),
                Err(e) => r == Err::<Option<&str>, ParseError>(e),
            },
    {
        proof {
            use_type_invariant(&*self);
        }
        let saved = self.pos;
        let first = self.first;
        match self.lex_token() {
            Err(e) => Err(e),
            Ok(t) => {
                if t == Token::CloseCurly {
                    self.set_pos(saved);
                    return Ok(None);
                }
                if t == Token::Comma {
                    if first {
                        return Err(ParseError::at(
                            self.token_start,
                            ParseErrorKind::UnexpectedToken { expected: "string or }", got: "," },
                        ));
                    }
                    match self.lex_token() {
                        Err(e) => {
                            return Err(e);
                        },
                        Ok(t2) => {
                            if t2 != Token::String {
                                return Err(ParseError::at(
                                    self.token_start,
                                    ParseErrorKind::UnexpectedToken {
                                        expected: "string",
                                        got: t2.name(),
                                    },
                                ));
                            }
                        },
                    }
                } else if t == Token::String {
                    if !first {
                        return Err(ParseError::at(
                            self.token_start,
                            ParseErrorKind::UnexpectedToken { expected: ", or }", got: "string" },
                        ));
                    }
                } else {
                    return Err(ParseError::at(
                        self.token_start,
                        ParseErrorKind::UnexpectedToken { expected: "string or }", got: t.name() },
                    ));
                }
                let k = self.token_start;
                self.read_key(k, borrow)
            },
        }
    }

    /// Parse the next object member key (and its `:`), or return `None` when the
    /// closing `}` is reached, leaving it to [`Parser::object_end`].
    ///
    /// The key is decoded into the scratch buffer, as a string value is; a key that does
    /// not fit there gives `StringBufferOverflow`.
    pub fn object_member(&mut self) -> (r: Result<Option<&str>, ParseError>)
        ensures
            final(self).source() == old(self).source(),
            final(self).capacity() == old(self).capacity(),
            match member_outcome_with(
                old(self).source(),
                old(self).position(),
                old(self).at_first(),
                old(self).capacity(),
                false,
            ) {
                Ok(None) => r == Ok::<Option<&str>, ParseError>(None) && final(self).position()
                    == old(self).position() && final(self).at_first() == old(self).at_first(),
                Ok(Some((key, k, end))) => r matches Ok(Some(s)) && s.spec_bytes() == key
                    && final(self).position() == end && final(self).last_key_start() == k
                    && !final(self).at_first() && (final(self).scratch().take(
                    key.len() as int,
                ) == key),
                Err(e) => r == Err::<Option<&str>, ParseError>(e),
            },
    {
        self.next_member(false)
    }

    /// As [`Parser::object_member`], except that a key without escapes is returned
    /// straight from the source and needs no scratch space; only a key with escapes is
    /// decoded into the scratch buffer.
    pub fn member(&mut self) -> (r: Result<Option<&str>, ParseError>)
        ensures
            final(self).source() == old(self).source(),
            final(self).capacity() == old(self).capacity(),
            match member_outcome(
                old(self).source(),
                old(self).position(),
                old(self).at_first(),
                old(self).capacity(),
            ) {
                Ok(None) => r == Ok::<Option<&str>, ParseError>(None) && final(self).position()
                    == old(self).position() && final(self).at_first() == old(self).at_first(),
                Ok(Some((key, k, end))) => r matches Ok(Some(s)) && s.spec_bytes() == key
                    && final(self).position() == end && final(self).last_key_start() == k
                    && !final(self).at_first(),
                Err(e) => r == Err::<Option<&str>, ParseError>(e),
            },
    {
        self.next_member(true)
    }

    /// Check whether there is another item in the array: `true` if so (consuming the
    /// `,` before it), `false` when `]` is reached (which is left to
    /// [`Parser::array_end`]).
    pub fn array_item(&mut self) -> (r: Result<bool, ParseError>)
        ensures
            final(self).source() == old(self).source(),
            final(self).capacity() == old(self).capacity(),
            final(self).last_token_start() == skip_ws(old(self).source(), old(self).position()),
            match item_outcome(old(self).source(), old(self).position(), old(self).at_first()) {
                Ok((more, p)) => r == Ok::<bool, ParseError>(more) && final(self).position() == p
                    && final(self).at_first() == (!more && old(self).at_first()),
                Err(e) => r == Err::<bool, ParseError>(e),
            },
    {
        proof {
            use_type_invariant(&*self);
        }
        let i = self.ws_end(self.pos);
        self.set_token_start(i);
        let t = if i >= self.src.len() {
            Token::Eof
        } else {
            first_byte_token(self.src[i])
        };
        if t == Token::CloseBracket {
            Ok(false)
        } else if t == Token::Comma {
            if self.first {
                Err(ParseError::at(
                    i,
                    ParseErrorKind::UnexpectedToken { expected: "array item", got: "," },
                ))
            } else {
                self.set_pos(i + 1);
                Ok(true)
            }
        } else if self.first {
            self.set_first(false);
            Ok(true)
        } else {
            Err(ParseError::at(
                i,
                ParseErrorKind::UnexpectedToken { expected: ", or ]", got: t.name() },
            ))
        }
    }

    /// An `UnknownField` error pointing at the most recently read object key.
    /// Call this for a key that the type being read does not have.
    pub fn unknown_field(&self) -> (e: ParseError)
        ensures
            e.kind == ParseErrorKind::UnknownField,
            e.offset == self.last_key_start(),
    {
        ParseError::at(self.key_start, ParseErrorKind::UnknownField)
    }

    /// The same error as [`Parser::unknown_field`]; the type's name and its field names
    /// are accepted for the caller's convenience and not kept.
    pub fn unknown_field_in(
        &self,
        type_label: &'static str,
        expected_fields: &'static [&'static str],
    ) -> (e: ParseError)
        ensures
            e.kind == ParseErrorKind::UnknownField,
            e.offset == self.last_key_start(),
    {
        ParseError::at(self.key_start, ParseErrorKind::UnknownField)
    }

    /// Parse a JSON number as an integer of type `T`.
    pub fn integer<T: IntParse>(&mut self) -> (r: Result<T, ParseError>)
        ensures
            final(self).source() == old(self).source(),
            final(self).capacity() == old(self).capacity(),
            final(self).last_token_start() == skip_ws(old(self).source(), old(self).position()),
            match expect_outcome(old(self).source(), old(self).position(), Token::Number) {
                Ok((start, end)) => match int_parts(old(self).source().subrange(start, end)) {
                    Some((neg, mag)) => if T::accepts(neg, mag) {
                        r matches Ok(v) && v.as_int() == signed(neg, mag) && final(self).position()
                            == end && !final(self).at_first()
                    } else {
                        r == Err::<T, ParseError>(unexpected(start, "integer", "number out of range"))
                    },
                    None => r == Err::<T, ParseError>(
                        unexpected(start, "integer", "number out of range"),
                    ),
                },
                Err(e) => r == Err::<T, ParseError>(e),
            },
    {
        match self.expect(Token::Number) {
            Err(e) => Err(e),
            Ok(()) => {
                proof {
                    use_type_invariant(&*self);
                    lemma_number_ascii(self.src@, self.token_start as int);
                }
                let s = self.src;
                let start = self.token_start;
                let parts = parse_int_text(&s[start..self.pos]);
                let err = ParseError::at(
                    start,
                    ParseErrorKind::UnexpectedToken { expected: "integer", got: "number out of range" },
                );
                match parts {
                    None => {
                        proof {
                            let t = s@.subrange(start as int, self.pos as int);
                            if let Some((neg, mag)) = int_parts(t) {
                                T::lemma_accepts_u128(neg, mag);
                            }
                        }
                        Err(err)
                    },
                    Some((neg, mag)) => match T::from_parts(neg, mag) {
                        None => Err(err),
                        Some(v) => {
                            self.set_first(false);
                            Ok(v)
                        },
                    },
                }
            },
        }
    }

    pub fn is_null_ahead(&self) -> (r: bool)
        ensures
            r == (peek_kind(self.source(), self.position()) == Token::Null),
    {
        self.peek_token() == Token::Null
    }

    pub fn is_bool_ahead(&self) -> (r: bool)
        ensures
            r == (peek_kind(self.source(), self.position()) == Token::True || peek_kind(
                self.source(),
                self.position(),
            ) == Token::False),
    {
        let t = self.peek_token();
        t == Token::True || t == Token::False
    }

    pub fn is_number_ahead(&self) -> (r: bool)
        ensures
            r == (peek_kind(self.source(), self.position()) == Token::Number),
    {
        self.peek_token() == Token::Number
    }

    pub fn is_string_ahead(&self) -> (r: bool)
        ensures
            r == (peek_kind(self.source(), self.position()) == Token::String),
    {
        self.peek_token() == Token::String
    }

    pub fn is_array_ahead(&self) -> (r: bool)
        ensures
            r == (peek_kind(self.source(), self.position()) == Token::OpenBracket),
    {
        self.peek_token() == Token::OpenBracket
    }

    pub fn is_object_ahead(&self) -> (r: bool)
        ensures
            r == (peek_kind(self.source(), self.position()) == Token::OpenCurly),
    {
        self.peek_token() == Token::OpenCurly
    }
}

/// Where a decoded string is: in the source (`borrowed`, between the quotes ending
/// before `end`) or in the first `len` bytes of the scratch buffer.
struct StrLoc {
    end: usize,
    borrowed: bool,
    len: usize,
}

/// The value of a hex digit, or -1.
fn hex_digit_value(b: u8) -> (v: i32)
    ensures
        v == hex_val(b),
{
    if 0x30 <= b && b <= 0x39 {
        (b - 0x30) as i32
    } else if 0x61 <= b && b <= 0x66 {
        (b - 0x61 + 10) as i32
    } else if 0x41 <= b && b <= 0x46 {
        (b - 0x41 + 10) as i32
    } else {
        -1
    }
}

/// Parse exactly 4 hex digits from the start of `bytes`, returning the value, or
/// `None` if fewer than 4 bytes are present or one of them is not a hex digit.
fn parse_hex4(bytes: &[u8]) -> (r: Option<u16>)
    ensures
        r is Some <==> bytes@.len() >= 4 && hex4(bytes@, 0) >= 0,
        r matches Some(v) ==> v == hex4(bytes@, 0),
{
    if bytes.len() < 4 {
        return None;
    }
    let a = hex_digit_value(bytes[0]);
    let b = hex_digit_value(bytes[1]);
    let c = hex_digit_value(bytes[2]);
    let d = hex_digit_value(bytes[3]);
    if a < 0 || b < 0 || c < 0 || d < 0 {
        return None;
    }
    Some((a * 4096 + b * 256 + c * 16 + d) as u16)
}

proof fn lemma_encode_bits(cp: u32)
    by (bit_vector)
    ensures
        cp <= 0x7F ==> (cp as u8) == (cp & 0x7F) as u8,
        0x80 <= cp <= 0x7FF ==> (0xC0u8 | ((cp >> 6) as u8)) == (0xC0 | ((cp >> 6) & 0x1F) as u8)
            && (0x80u8 | ((cp & 0x3F) as u8)) == (0x80 | (cp & 0x3F) as u8),
        0x800 <= cp <= 0xFFFF ==> (0xE0u8 | ((cp >> 12) as u8)) == (0xE0 | ((cp >> 12) & 0x0F) as u8)
            && (0x80u8 | (((cp >> 6) & 0x3F) as u8)) == (0x80 | ((cp >> 6) & 0x3F) as u8),
        0x10000 <= cp <= 0x10FFFF ==> (0xF0u8 | ((cp >> 18) as u8)) == (0xF0 | ((cp >> 18) & 0x7)
            as u8) && (0x80u8 | (((cp >> 12) & 0x3F) as u8)) == (0x80 | ((cp >> 12) & 0x3F) as u8),
{
}

/// Encode a Unicode scalar value as UTF-8. Returns the bytes and how many are used (1–4).
pub(crate) fn encode_utf8_cp(cp: u32) -> (r: ([u8; 4], usize))
    requires
        is_scalar(cp),
    ensures
        1 <= r.1 <= 4,
        r.0@.take(r.1 as int) == encode_scalar(cp),
        forall|k: int| r.1 <= k < 4 ==> r.0@[k] == 0,
{
    proof {
        lemma_encode_bits(cp);
    }
    if cp <= 0x7F {
        let b: [u8; 4] = [cp as u8, 0, 0, 0];
        assert(b@.take(1) =~= encode_scalar(cp));
        (b, 1)
    } else if cp <= 0x7FF {
        let b: [u8; 4] = [0xC0 | (cp >> 6) as u8, 0x80 | (cp & 0x3F) as u8, 0, 0];
        assert(b@.take(2) =~= encode_scalar(cp));
        (b, 2)
    } else if cp <= 0xFFFF {
        let b: [u8; 4] = [
            0xE0 | (cp >> 12) as u8,
            0x80 | ((cp >> 6) & 0x3F) as u8,
            0x80 | (cp & 0x3F) as u8,
            0,
        ];
        assert(b@.take(3) =~= encode_scalar(cp));
        (b, 3)
    } else {
        let b: [u8; 4] = [
            0xF0 | (cp >> 18) as u8,
            0x80 | ((cp >> 12) & 0x3F) as u8,
            0x80 | ((cp >> 6) & 0x3F) as u8,
            0x80 | (cp & 0x3F) as u8,
        ];
        assert(b@.take(4) =~= encode_scalar(cp));
        (b, 4)
    }
}

/// The byte a short escape `\c` stands for.
fn short_escape_byte(c: u8) -> (r: Option<u8>)
    ensures
        r is Some <==> short_escape(c) >= 0,
        r matches Some(b) ==> b == short_escape(c),
{
    if c == 0x22 {
        Some(0x22)
    } else if c == 0x5C {
        Some(0x5C)
    } else if c == 0x2F {
        Some(0x2F)
    } else if c == 0x62 {
        Some(0x08)
    } else if c == 0x66 {
        Some(0x0C)
    } else if c == 0x6E {
        Some(0x0A)
    } else if c == 0x72 {
        Some(0x0D)
    } else if c == 0x74 {
        Some(0x09)
    } else {
        None
    }
}

fn is_ws_byte(b: u8) -> (r: bool)
    ensures
        r == is_ws(b),
{
    b == 0x20 || b == 0x09 || b == 0x0A || b == 0x0D
}

fn is_plain_byte(b: u8) -> (r: bool)
    ensures
        r == is_plain_str_byte(b),
{
    b != 0x22 && b != 0x5C && b >= 0x20
}

fn is_digit_byte(b: u8) -> (r: bool)
    ensures
        r == is_digit(b),
{
    0x30 <= b && b <= 0x39
}

fn first_byte_token(b: u8) -> (t: Token)
    ensures
        t == token_of_first_byte(b),
{
    if b == 0x7B {
        Token::OpenCurly
    } else if b == 0x7D {
        Token::CloseCurly
    } else if b == 0x5B {
        Token::OpenBracket
    } else if b == 0x5D {
        Token::CloseBracket
    } else if b == 0x2C {
        Token::Comma
    } else if b == 0x3A {
        Token::Colon
    } else if b == 0x22 {
        Token::String
    } else if b == 0x74 {
        Token::True
    } else if b == 0x66 {
        Token::False
    } else if b == 0x6E {
        Token::Null
    } else if b == 0x2D || (0x30 <= b && b <= 0x39) {
        Token::Number
    } else {
        Token::Invalid
    }
}

} // verus!
