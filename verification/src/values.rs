//! Reading typed values with the [`Parser`].
use vstd::prelude::*;

use crate::deserialize::{Parser, Token};
use crate::error::{ParseError, ParseErrorKind};
use crate::grammar::{bool_outcome, expect_outcome, finish_outcome, item_outcome, lemma_skip_ws, lemma_string_end, int_parts, lemma_lex_bounds, lex, peek_kind, signed, skip_ws, string_value_outcome, unexpected, Lexed};
use crate::number::IntParse;
use vstd::utf8::encode_utf8;

verus! {

/// Types that can read themselves from JSON using a [`Parser`].
///
/// `read_end(src, pos, cap)` says where reading a value of the type at position `pos`
/// of `src` ends, with `cap` bytes of scratch space, or which error it gives;
/// `read_gives` says which value a successful read gives. What `deserialize` promises
/// of them holds only where `obeys_read_end()` is true: every implementation in this
/// crate sets it and is verified against the contract, while an implementation written
/// elsewhere (such as one the derive macros generate) leaves it false, and nothing is
/// then said of what it reads or which error it gives. Every implementation keeps the
/// source and scratch space and, on success, moves the parser forward within the
/// source.
pub trait Deserialize<'src, 'buf>: Sized {
    open spec fn obeys_read_end() -> bool {
        false
    }

    open spec fn read_end(src: Seq<u8>, pos: int, cap: nat) -> Result<int, ParseError> {
        Err(unexpected(pos, "value", "value"))
    }

    open spec fn read_gives(src: Seq<u8>, pos: int, cap: nat, v: Self) -> bool {
        false
    }

    /// Reads a value; a successful read moves the parser forward.
    fn deserialize(parser: &mut Parser<'src, 'buf>) -> (r: Result<Self, ParseError>)
        ensures
            final(parser).source() == old(parser).source(),
            final(parser).capacity() == old(parser).capacity(),
            Self::obeys_read_end() ==> match Self::read_end(
                old(parser).source(),
                old(parser).position(),
                old(parser).capacity(),
            ) {
                Ok(end) => r matches Ok(v) && Self::read_gives(
                    old(parser).source(),
                    old(parser).position(),
                    old(parser).capacity(),
                    v,
                ) && final(parser).position() == end && !final(parser).at_first(),
                Err(e) => r == Err::<Self, ParseError>(e),
            },
            r is Ok ==> old(parser).position() < final(parser).position(),
            r is Ok ==> final(parser).position() <= final(parser).source().len(),
    ;
}

/// Where reading an integer of type `T` at `pos` ends, or its error.
pub open spec fn int_read_end<T: IntParse>(src: Seq<u8>, pos: int) -> Result<int, ParseError> {
    match expect_outcome(src, pos, Token::Number) {
        Err(e) => Err(e),
        Ok((start, end)) => match int_parts(src.subrange(start, end)) {
            Some((neg, mag)) => if T::accepts(neg, mag) {
                Ok(end)
            } else {
                Err(unexpected(start, "integer", "number out of range"))
            },
            None => Err(unexpected(start, "integer", "number out of range")),
        },
    }
}

/// `v` is the integer that the number at `pos` stands for.
pub open spec fn int_read_gives<T: IntParse>(src: Seq<u8>, pos: int, v: T) -> bool {
    match expect_outcome(src, pos, Token::Number) {
        Err(_) => false,
        Ok((start, end)) => match int_parts(src.subrange(start, end)) {
            Some((neg, mag)) => v.as_int() == signed(neg, mag),
            None => false,
        },
    }
}

/// A token read at `pos` ends after `pos`, within the source.
pub(crate) proof fn lemma_expect_end(src: Seq<u8>, pos: int, want: Token)
    requires
        0 <= pos <= src.len(),
        want != Token::Eof,
        want != Token::String,
    ensures
        expect_outcome(src, pos, want) matches Ok((start, end)) ==> pos <= start < end
            <= src.len(),
{
    lemma_lex_bounds(src, pos);
}

/// Reads an integer of type `T`.
fn read_integer<'src, 'buf, T: IntParse>(parser: &mut Parser<'src, 'buf>) -> (r: Result<T, ParseError>)
    ensures
        final(parser).source() == old(parser).source(),
        final(parser).capacity() == old(parser).capacity(),
        match int_read_end::<T>(old(parser).source(), old(parser).position()) {
            Ok(end) => r matches Ok(v) && int_read_gives::<T>(
                old(parser).source(),
                old(parser).position(),
                v,
            ) && final(parser).position() == end && !final(parser).at_first(),
            Err(e) => r == Err::<T, ParseError>(e),
        },
        r is Ok ==> old(parser).position() < final(parser).position(),
        r is Ok ==> final(parser).position() <= final(parser).source().len(),
{
    parser.position_in_source();
    proof {
        lemma_expect_end(parser.source(), parser.position(), Token::Number);
    }
    let r = parser.integer::<T>();
    parser.position_in_source();
    r
}

impl<'src, 'buf> Deserialize<'src, 'buf> for i8 {
    open spec fn obeys_read_end() -> bool {
        true
    }

    open spec fn read_end(src: Seq<u8>, pos: int, cap: nat) -> Result<int, ParseError> {
        int_read_end::<i8>(src, pos)
    }

    open spec fn read_gives(src: Seq<u8>, pos: int, cap: nat, v: i8) -> bool {
        int_read_gives::<i8>(src, pos, v)
    }


    fn deserialize(parser: &mut Parser<'src, 'buf>) -> (r: Result<i8, ParseError>) {
        read_integer::<i8>(parser)
    }
}

impl<'src, 'buf> Deserialize<'src, 'buf> for i16 {
    open spec fn obeys_read_end() -> bool {
        true
    }

    open spec fn read_end(src: Seq<u8>, pos: int, cap: nat) -> Result<int, ParseError> {
        int_read_end::<i16>(src, pos)
    }

    open spec fn read_gives(src: Seq<u8>, pos: int, cap: nat, v: i16) -> bool {
        int_read_gives::<i16>(src, pos, v)
    }


    fn deserialize(parser: &mut Parser<'src, 'buf>) -> (r: Result<i16, ParseError>) {
        read_integer::<i16>(parser)
    }
}

impl<'src, 'buf> Deserialize<'src, 'buf> for i32 {
    open spec fn obeys_read_end() -> bool {
        true
    }

    open spec fn read_end(src: Seq<u8>, pos: int, cap: nat) -> Result<int, ParseError> {
        int_read_end::<i32>(src, pos)
    }

    open spec fn read_gives(src: Seq<u8>, pos: int, cap: nat, v: i32) -> bool {
        int_read_gives::<i32>(src, pos, v)
    }


    fn deserialize(parser: &mut Parser<'src, 'buf>) -> (r: Result<i32, ParseError>) {
        read_integer::<i32>(parser)
    }
}

impl<'src, 'buf> Deserialize<'src, 'buf> for i64 {
    open spec fn obeys_read_end() -> bool {
        true
    }

    open spec fn read_end(src: Seq<u8>, pos: int, cap: nat) -> Result<int, ParseError> {
        int_read_end::<i64>(src, pos)
    }

    open spec fn read_gives(src: Seq<u8>, pos: int, cap: nat, v: i64) -> bool {
        int_read_gives::<i64>(src, pos, v)
    }


    fn deserialize(parser: &mut Parser<'src, 'buf>) -> (r: Result<i64, ParseError>) {
        read_integer::<i64>(parser)
    }
}

impl<'src, 'buf> Deserialize<'src, 'buf> for i128 {
    open spec fn obeys_read_end() -> bool {
        true
    }

    open spec fn read_end(src: Seq<u8>, pos: int, cap: nat) -> Result<int, ParseError> {
        int_read_end::<i128>(src, pos)
    }

    open spec fn read_gives(src: Seq<u8>, pos: int, cap: nat, v: i128) -> bool {
        int_read_gives::<i128>(src, pos, v)
    }


    fn deserialize(parser: &mut Parser<'src, 'buf>) -> (r: Result<i128, ParseError>) {
        read_integer::<i128>(parser)
    }
}

impl<'src, 'buf> Deserialize<'src, 'buf> for isize {
    open spec fn obeys_read_end() -> bool {
        true
    }

    open spec fn read_end(src: Seq<u8>, pos: int, cap: nat) -> Result<int, ParseError> {
        int_read_end::<isize>(src, pos)
    }

    open spec fn read_gives(src: Seq<u8>, pos: int, cap: nat, v: isize) -> bool {
        int_read_gives::<isize>(src, pos, v)
    }


    fn deserialize(parser: &mut Parser<'src, 'buf>) -> (r: Result<isize, ParseError>) {
        read_integer::<isize>(parser)
    }
}

impl<'src, 'buf> Deserialize<'src, 'buf> for u8 {
    open spec fn obeys_read_end() -> bool {
        true
    }

    open spec fn read_end(src: Seq<u8>, pos: int, cap: nat) -> Result<int, ParseError> {
        int_read_end::<u8>(src, pos)
    }

    open spec fn read_gives(src: Seq<u8>, pos: int, cap: nat, v: u8) -> bool {
        int_read_gives::<u8>(src, pos, v)
    }


    fn deserialize(parser: &mut Parser<'src, 'buf>) -> (r: Result<u8, ParseError>) {
        read_integer::<u8>(parser)
    }
}

impl<'src, 'buf> Deserialize<'src, 'buf> for u16 {
    open spec fn obeys_read_end() -> bool {
        true
    }

    open spec fn read_end(src: Seq<u8>, pos: int, cap: nat) -> Result<int, ParseError> {
        int_read_end::<u16>(src, pos)
    }

    open spec fn read_gives(src: Seq<u8>, pos: int, cap: nat, v: u16) -> bool {
        int_read_gives::<u16>(src, pos, v)
    }


    fn deserialize(parser: &mut Parser<'src, 'buf>) -> (r: Result<u16, ParseError>) {
        read_integer::<u16>(parser)
    }
}

impl<'src, 'buf> Deserialize<'src, 'buf> for u32 {
    open spec fn obeys_read_end() -> bool {
        true
    }

    open spec fn read_end(src: Seq<u8>, pos: int, cap: nat) -> Result<int, ParseError> {
        int_read_end::<u32>(src, pos)
    }

    open spec fn read_gives(src: Seq<u8>, pos: int, cap: nat, v: u32) -> bool {
        int_read_gives::<u32>(src, pos, v)
    }


    fn deserialize(parser: &mut Parser<'src, 'buf>) -> (r: Result<u32, ParseError>) {
        read_integer::<u32>(parser)
    }
}

impl<'src, 'buf> Deserialize<'src, 'buf> for u64 {
    open spec fn obeys_read_end() -> bool {
        true
    }

    open spec fn read_end(src: Seq<u8>, pos: int, cap: nat) -> Result<int, ParseError> {
        int_read_end::<u64>(src, pos)
    }

    open spec fn read_gives(src: Seq<u8>, pos: int, cap: nat, v: u64) -> bool {
        int_read_gives::<u64>(src, pos, v)
    }


    fn deserialize(parser: &mut Parser<'src, 'buf>) -> (r: Result<u64, ParseError>) {
        read_integer::<u64>(parser)
    }
}

impl<'src, 'buf> Deserialize<'src, 'buf> for u128 {
    open spec fn obeys_read_end() -> bool {
        true
    }

    open spec fn read_end(src: Seq<u8>, pos: int, cap: nat) -> Result<int, ParseError> {
        int_read_end::<u128>(src, pos)
    }

    open spec fn read_gives(src: Seq<u8>, pos: int, cap: nat, v: u128) -> bool {
        int_read_gives::<u128>(src, pos, v)
    }


    fn deserialize(parser: &mut Parser<'src, 'buf>) -> (r: Result<u128, ParseError>) {
        read_integer::<u128>(parser)
    }
}

impl<'src, 'buf> Deserialize<'src, 'buf> for usize {
    open spec fn obeys_read_end() -> bool {
        true
    }

    open spec fn read_end(src: Seq<u8>, pos: int, cap: nat) -> Result<int, ParseError> {
        int_read_end::<usize>(src, pos)
    }

    open spec fn read_gives(src: Seq<u8>, pos: int, cap: nat, v: usize) -> bool {
        int_read_gives::<usize>(src, pos, v)
    }


    fn deserialize(parser: &mut Parser<'src, 'buf>) -> (r: Result<usize, ParseError>) {
        read_integer::<usize>(parser)
    }
}

impl<'src, 'buf> Deserialize<'src, 'buf> for bool {
    open spec fn obeys_read_end() -> bool {
        true
    }

    open spec fn read_end(src: Seq<u8>, pos: int, cap: nat) -> Result<int, ParseError> {
        match bool_outcome(src, pos) {
            Ok((_, end)) => Ok(end),
            Err(e) => Err(e),
        }
    }

    open spec fn read_gives(src: Seq<u8>, pos: int, cap: nat, v: bool) -> bool {
        bool_outcome(src, pos) matches Ok((b, _)) && b == v
    }


    fn deserialize(parser: &mut Parser<'src, 'buf>) -> (r: Result<bool, ParseError>) {
        parser.position_in_source();
        proof {
            lemma_lex_bounds(parser.source(), parser.position());
        }
        let r = parser.bool_val();
        parser.position_in_source();
        r
    }
}

impl<'src, 'buf> Deserialize<'src, 'buf> for String {
    open spec fn obeys_read_end() -> bool {
        true
    }

    open spec fn read_end(src: Seq<u8>, pos: int, cap: nat) -> Result<int, ParseError> {
        match string_value_outcome(src, pos, cap) {
            Ok((_, end)) => Ok(end),
            Err(e) => Err(e),
        }
    }

    open spec fn read_gives(src: Seq<u8>, pos: int, cap: nat, v: String) -> bool {
        string_value_outcome(src, pos, cap) matches Ok((content, _)) && encode_utf8(v@) == content
    }


    fn deserialize(parser: &mut Parser<'src, 'buf>) -> (r: Result<String, ParseError>) {
        parser.position_in_source();
        proof {
            let src = parser.source();
            let pos = parser.position();
            lemma_lex_bounds(src, pos);
            match lex(src, pos) {
                Lexed::Tok { token, start, end } => {
                    if token == Token::String {
                        lemma_string_end(src, start, parser.capacity(), false);
                    }
                },
                Lexed::Fail { .. } => {},
            }
        }
        let r = match parser.string() {
            Ok(s) => Ok(s.to_owned()),
            Err(e) => Err(e),
        };
        parser.position_in_source();
        r
    }
}

impl<'src, 'buf, T: Deserialize<'src, 'buf>> Deserialize<'src, 'buf> for Option<T> {
    open spec fn obeys_read_end() -> bool {
        T::obeys_read_end()
    }

    open spec fn read_end(src: Seq<u8>, pos: int, cap: nat) -> Result<int, ParseError> {
        if peek_kind(src, pos) == Token::Null {
            match expect_outcome(src, pos, Token::Null) {
                Ok((_, end)) => Ok(end),
                Err(e) => Err(e),
            }
        } else {
            T::read_end(src, pos, cap)
        }
    }

    open spec fn read_gives(src: Seq<u8>, pos: int, cap: nat, v: Option<T>) -> bool {
        match v {
            None => peek_kind(src, pos) == Token::Null,
            Some(x) => peek_kind(src, pos) != Token::Null && T::read_gives(src, pos, cap, x),
        }
    }


    fn deserialize(parser: &mut Parser<'src, 'buf>) -> (r: Result<Option<T>, ParseError>) {
        parser.position_in_source();
        proof {
            lemma_expect_end(parser.source(), parser.position(), Token::Null);
        }
        if parser.is_null_ahead() {
            let r = parser.null();
            parser.position_in_source();
            match r {
                Ok(()) => Ok(None),
                Err(e) => Err(e),
            }
        } else {
            match T::deserialize(parser) {
                Ok(v) => Ok(Some(v)),
                Err(e) => Err(e),
            }
        }
    }
}

impl<'src, 'buf, T: Deserialize<'src, 'buf>> Deserialize<'src, 'buf> for Box<T> {
    open spec fn obeys_read_end() -> bool {
        T::obeys_read_end()
    }

    open spec fn read_end(src: Seq<u8>, pos: int, cap: nat) -> Result<int, ParseError> {
        T::read_end(src, pos, cap)
    }

    open spec fn read_gives(src: Seq<u8>, pos: int, cap: nat, v: Box<T>) -> bool {
        T::read_gives(src, pos, cap, *v)
    }


    fn deserialize(parser: &mut Parser<'src, 'buf>) -> (r: Result<Box<T>, ParseError>) {
        match T::deserialize(parser) {
            Ok(v) => Ok(Box::new(v)),
            Err(e) => Err(e),
        }
    }
}

/// Where the rest of an array ends (after its `]`), reading from `p` with `first` as in
/// [`item_outcome`], or the error.
pub open spec fn items_end<'src, 'buf, T: Deserialize<'src, 'buf>>(
    src: Seq<u8>,
    p: int,
    first: bool,
    cap: nat,
) -> Result<int, ParseError>
    decreases src.len() - p,
    when 0 <= p <= src.len()
{
    match item_outcome(src, p, first) {
        Err(e) => Err(e),
        Ok((more, p1)) => if !more {
            match expect_outcome(src, p1, Token::CloseBracket) {
                Ok((_, e)) => Ok(e),
                Err(e) => Err(e),
            }
        } else {
            match T::read_end(src, p1, cap) {
                Err(e) => Err(e),
                Ok(e) => if p < e <= src.len() {
                    items_end::<T>(src, e, false, cap)
                } else {
                    Err(unexpected(e, "]", "array item"))
                },
            }
        },
    }
}

/// `items` are the values that the rest of an array gives, reading from `p` with
/// `first` as in [`item_outcome`].
pub open spec fn items_give<'src, 'buf, T: Deserialize<'src, 'buf>>(
    src: Seq<u8>,
    p: int,
    first: bool,
    cap: nat,
    items: Seq<T>,
) -> bool
    decreases items.len(),
{
    match item_outcome(src, p, first) {
        Err(_) => false,
        Ok((more, p1)) => if items.len() == 0 {
            !more
        } else {
            more && T::read_gives(src, p1, cap, items[0]) && match T::read_end(src, p1, cap) {
                Ok(e) => items_give::<T>(src, e, false, cap, items.skip(1)),
                Err(_) => false,
            }
        },
    }
}

/// Asking for an item moves the read position forward, within the source.
pub(crate) proof fn lemma_item_bounds(src: Seq<u8>, p: int, first: bool)
    requires
        0 <= p <= src.len(),
    ensures
        item_outcome(src, p, first) matches Ok((more, p1)) ==> p <= p1 <= src.len(),
{
    lemma_skip_ws(src, p);
}

impl<'src, 'buf, T: Deserialize<'src, 'buf>> Deserialize<'src, 'buf> for Vec<T> {
    open spec fn obeys_read_end() -> bool {
        T::obeys_read_end()
    }

    open spec fn read_end(src: Seq<u8>, pos: int, cap: nat) -> Result<int, ParseError> {
        match expect_outcome(src, pos, Token::OpenBracket) {
            Ok((_, p0)) => items_end::<T>(src, p0, true, cap),
            Err(e) => Err(e),
        }
    }

    open spec fn read_gives(src: Seq<u8>, pos: int, cap: nat, v: Vec<T>) -> bool {
        match expect_outcome(src, pos, Token::OpenBracket) {
            Ok((_, p0)) => items_give::<T>(src, p0, true, cap, v@),
            Err(_) => false,
        }
    }


    fn deserialize(parser: &mut Parser<'src, 'buf>) -> (r: Result<Vec<T>, ParseError>) {
        parser.position_in_source();
        proof {
            lemma_expect_end(parser.source(), parser.position(), Token::OpenBracket);
        }
        match parser.array_begin() {
            Err(e) => {
                return Err(e);
            },
            Ok(()) => {},
        }
        let ghost src = parser.source();
        let ghost cap = parser.capacity();
        let ghost p0 = parser.position();
        parser.position_in_source();
        let mut vec: Vec<T> = Vec::new();
        assert forall|rest: Seq<T>|
            items_give::<T>(src, parser.position(), parser.at_first(), cap, rest) implies items_give::<T>(
            src,
            p0,
            true,
            cap,
            vec@ + rest,
        ) by {
            assert(vec@ + rest =~= rest);
        }
        loop
            invariant
                parser.source() == src,
                parser.capacity() == cap,
                0 <= parser.position() <= src.len(),
                0 <= p0 <= src.len(),
                old(parser).position() < p0 <= parser.position(),
                T::obeys_read_end() ==> items_end::<T>(src, p0, true, cap) == items_end::<T>(
                    src,
                    parser.position(),
                    parser.at_first(),
                    cap,
                ),
                T::obeys_read_end() ==> (forall|rest: Seq<T>|
                    items_give::<T>(src, parser.position(), parser.at_first(), cap, rest)
                        ==> #[trigger] items_give::<T>(src, p0, true, cap, vec@ + rest)),
                Self::read_end(old(parser).source(), old(parser).position(), old(parser).capacity())
                    == match expect_outcome(src, old(parser).position(), Token::OpenBracket) {
                    Ok((_, q)) => items_end::<T>(src, q, true, cap),
                    Err(e) => Err(e),
                },
                expect_outcome(src, old(parser).position(), Token::OpenBracket) matches Ok((_, q))
                    && q == p0,
                src == old(parser).source(),
                cap == old(parser).capacity(),
            decreases src.len() - parser.position(),
        {
            let ghost p = parser.position();
            let ghost first = parser.at_first();
            let ghost before = vec@;
            proof {
                lemma_item_bounds(src, p, first);
            }
            match parser.array_item() {
                Err(e) => {
                    return Err(e);
                },
                Ok(more) => {
                    if !more {
                        proof {
                            lemma_expect_end(src, parser.position(), Token::CloseBracket);
                        }
                        let end = parser.array_end();
                        parser.position_in_source();
                        match end {
                            Err(e) => {
                                return Err(e);
                            },
                            Ok(()) => {
                                proof {
                                    assert(items_give::<T>(src, p, first, cap, Seq::empty()));
                                    assert(vec@ + Seq::<T>::empty() =~= vec@);
                                }
                                return Ok(vec);
                            },
                        }
                    }
                },
            }
            let ghost p1 = parser.position();
            match T::deserialize(parser) {
                Err(e) => {
                    return Err(e);
                },
                Ok(x) => {
                    vec.push(x);
                    proof {
                        if T::obeys_read_end() {
                        assert forall|rest: Seq<T>|
                            items_give::<T>(
                                src,
                                parser.position(),
                                parser.at_first(),
                                cap,
                                rest,
                            ) implies #[trigger] items_give::<T>(src, p0, true, cap, vec@ + rest) by {
                            let r2 = seq![x] + rest;
                            assert(r2.skip(1) =~= rest);
                            assert(r2[0] == x);
                            assert(items_give::<T>(src, p, first, cap, r2));
                            assert(before + r2 =~= vec@ + rest);
                        }
                        }
                    }
                },
            }
        }
    }
}


/// Where the rest of an array of exactly `n` more items ends (after its `]`), reading
/// from `p` with `first` as in [`item_outcome`], or the error. Too few items give
/// `expected array item, got ]` and too many `expected ], got array item`, at the token
/// where the difference shows.
pub open spec fn fixed_items_end<'src, 'buf, T: Deserialize<'src, 'buf>>(
    src: Seq<u8>,
    p: int,
    first: bool,
    cap: nat,
    n: nat,
) -> Result<int, ParseError>
    decreases n,
{
    match item_outcome(src, p, first) {
        Err(e) => Err(e),
        Ok((more, p1)) => if n == 0 {
            if more {
                Err(unexpected(skip_ws(src, p), "]", "array item"))
            } else {
                match expect_outcome(src, p1, Token::CloseBracket) {
                    Ok((_, e)) => Ok(e),
                    Err(e) => Err(e),
                }
            }
        } else if !more {
            Err(unexpected(skip_ws(src, p), "array item", "]"))
        } else {
            match T::read_end(src, p1, cap) {
                Err(e) => Err(e),
                Ok(e) => fixed_items_end::<T>(src, e, false, cap, (n - 1) as nat),
            }
        },
    }
}

/// Calls `<[T; N]>::try_from` on a vector, which gives an array holding the vector's
/// items in order exactly when the vector has `N` items.
#[verifier::external_body]
fn vec_into_array<T, const N: usize>(v: Vec<T>) -> (r: Option<[T; N]>)
    ensures
        r is Some <==> v@.len() == N,
        r matches Some(a) ==> a@ == v@,
{
    <[T; N]>::try_from(v).ok()
}


impl<'src, 'buf, T: Deserialize<'src, 'buf>, const N: usize> Deserialize<'src, 'buf> for [T; N] {
    open spec fn obeys_read_end() -> bool {
        T::obeys_read_end()
    }

    open spec fn read_end(src: Seq<u8>, pos: int, cap: nat) -> Result<int, ParseError> {
        match expect_outcome(src, pos, Token::OpenBracket) {
            Ok((_, p0)) => fixed_items_end::<T>(src, p0, true, cap, N as nat),
            Err(e) => Err(e),
        }
    }

    open spec fn read_gives(src: Seq<u8>, pos: int, cap: nat, v: [T; N]) -> bool {
        match expect_outcome(src, pos, Token::OpenBracket) {
            Ok((_, p0)) => items_give::<T>(src, p0, true, cap, v@),
            Err(_) => false,
        }
    }


    fn deserialize(parser: &mut Parser<'src, 'buf>) -> (r: Result<[T; N], ParseError>) {
        parser.position_in_source();
        proof {
            lemma_expect_end(parser.source(), parser.position(), Token::OpenBracket);
        }
        match parser.array_begin() {
            Err(e) => {
                return Err(e);
            },
            Ok(()) => {},
        }
        let ghost src = parser.source();
        let ghost cap = parser.capacity();
        let ghost p0 = parser.position();
        parser.position_in_source();
        let mut vec: Vec<T> = Vec::new();
        assert forall|rest: Seq<T>|
            items_give::<T>(src, parser.position(), parser.at_first(), cap, rest) implies items_give::<T>(
            src,
            p0,
            true,
            cap,
            vec@ + rest,
        ) by {
            assert(vec@ + rest =~= rest);
        }
        let mut i: usize = 0;
        while i < N
            invariant
                parser.source() == src,
                parser.capacity() == cap,
                0 <= parser.position() <= src.len(),
                0 <= p0 <= src.len(),
                old(parser).position() < p0 <= parser.position(),
                i <= N,
                vec@.len() == i,
                T::obeys_read_end() ==> fixed_items_end::<T>(src, p0, true, cap, N as nat)
                    == fixed_items_end::<T>(
                    src,
                    parser.position(),
                    parser.at_first(),
                    cap,
                    (N - i) as nat,
                ),
                T::obeys_read_end() ==> (forall|rest: Seq<T>|
                    items_give::<T>(src, parser.position(), parser.at_first(), cap, rest)
                        ==> #[trigger] items_give::<T>(src, p0, true, cap, vec@ + rest)),
                expect_outcome(src, old(parser).position(), Token::OpenBracket) matches Ok((_, q))
                    && q == p0,
                src == old(parser).source(),
                cap == old(parser).capacity(),
            decreases N - i,
        {
            let ghost p = parser.position();
            let ghost first = parser.at_first();
            let ghost before = vec@;
            proof {
                lemma_item_bounds(src, p, first);
            }
            match parser.array_item() {
                Err(e) => {
                    return Err(e);
                },
                Ok(more) => {
                    if !more {
                        return Err(ParseError::at(
                            parser.error_offset(),
                            ParseErrorKind::UnexpectedToken { expected: "array item", got: "]" },
                        ));
                    }
                },
            }
            let ghost p1 = parser.position();
            match T::deserialize(parser) {
                Err(e) => {
                    return Err(e);
                },
                Ok(x) => {
                    vec.push(x);
                    proof {
                        if T::obeys_read_end() {
                        assert forall|rest: Seq<T>|
                            items_give::<T>(
                                src,
                                parser.position(),
                                parser.at_first(),
                                cap,
                                rest,
                            ) implies #[trigger] items_give::<T>(src, p0, true, cap, vec@ + rest) by {
                            let r2 = seq![x] + rest;
                            assert(r2.skip(1) =~= rest);
                            assert(r2[0] == x);
                            assert(items_give::<T>(src, p, first, cap, r2));
                            assert(before + r2 =~= vec@ + rest);
                        }
                        }
                    }
                },
            }
            i = i + 1;
        }
        let ghost p = parser.position();
        let ghost first = parser.at_first();
        proof {
            lemma_item_bounds(src, p, first);
        }
        match parser.array_item() {
            Err(e) => {
                return Err(e);
            },
            Ok(more) => {
                if more {
                    return Err(ParseError::at(
                        parser.error_offset(),
                        ParseErrorKind::UnexpectedToken { expected: "]", got: "array item" },
                    ));
                }
            },
        }
        parser.position_in_source();
        proof {
            lemma_expect_end(src, parser.position(), Token::CloseBracket);
        }
        match parser.array_end() {
            Err(e) => {
                return Err(e);
            },
            Ok(()) => {},
        }
        parser.position_in_source();
        proof {
            assert(items_give::<T>(src, p, first, cap, Seq::empty()));
            assert(vec@ + Seq::<T>::empty() =~= vec@);
        }
        match vec_into_array::<T, N>(vec) {
            Some(a) => Ok(a),
            None => Err(ParseError::at(
                parser.error_offset(),
                ParseErrorKind::UnexpectedToken { expected: "]", got: "array item" },
            )),
        }
    }
}


/// Reads a complete JSON document holding a value of type `T`, decoding strings into
/// `buf`. Only whitespace may follow the value.
pub fn parse_sized<'s, 'b, T: Deserialize<'s, 'b>>(buf: &'b mut [u8], src: &'s [u8]) -> (r: Result<
    T,
    ParseError,
>)
    ensures
        T::obeys_read_end() ==> match T::read_end(src@, 0, old(buf)@.len()) {
            Err(e) => r == Err::<T, ParseError>(e),
            Ok(end) => match finish_outcome(src@, end) {
                Err(e) => r == Err::<T, ParseError>(e),
                Ok(()) => r matches Ok(v) && T::read_gives(src@, 0, old(buf)@.len(), v),
            },
        },
{
    let mut parser = Parser::new(src, buf);
    match T::deserialize(&mut parser) {
        Err(e) => Err(e),
        Ok(v) => match parser.finish() {
            Ok(()) => Ok(v),
            Err(e) => Err(e),
        },
    }
}

/// The scratch size [`parse`] allocates: the length of the source, and at least one byte.
pub open spec fn scratch_size(src: Seq<u8>) -> nat {
    if src.len() == 0 {
        1
    } else {
        src.len()
    }
}

/// Reads a complete JSON document holding a value of type `T`, with a scratch buffer as
/// long as the source (a decoded string is never longer than its literal).
pub fn parse<'s, T>(src: &'s [u8]) -> (r: Result<T, ParseError>)
    where T: for <'b>Deserialize<'s, 'b>,
    ensures
        <T as Deserialize<'s, 'static>>::obeys_read_end() ==> match <T as Deserialize<
            's,
            'static,
        >>::read_end(src@, 0, scratch_size(src@)) {
            Err(e) => r == Err::<T, ParseError>(e),
            Ok(end) => match finish_outcome(src@, end) {
                Err(e) => r == Err::<T, ParseError>(e),
                Ok(()) => r matches Ok(v) && <T as Deserialize<'s, 'static>>::read_gives(
                    src@,
                    0,
                    scratch_size(src@),
                    v,
                ),
            },
        },
{
    let n = if src.len() == 0 {
        1
    } else {
        src.len()
    };
    let mut scratch: Vec<u8> = vec![0u8; n];
    parse_sized(scratch.as_mut_slice(), src)
}

/// Runs `f` on a parser over `src` that decodes strings into `buf`, then requires that
/// only whitespace is left: the result is `f`'s error, the error of that check, or `f`'s
/// value.
pub fn parse_sized_as<'s, 'b, T, F>(buf: &'b mut [u8], src: &'s [u8], f: F) -> (r: Result<
    T,
    ParseError,
>) where F: FnOnce(&mut Parser<'s, 'b>) -> Result<T, ParseError>
    requires
        forall|p: &mut Parser<'s, 'b>| f.requires((p,)),
    ensures
        exists|p: &mut Parser<'s, 'b>, v: Result<T, ParseError>|
            {
                &&& p.source() == src@
                &&& p.capacity() == old(buf)@.len()
                &&& p.position() == 0
                &&& !p.at_first()
                &&& #[trigger] f.ensures((p,), v)
                &&& match v {
                    Err(e) => r == Err::<T, ParseError>(e),
                    Ok(x) => match finish_outcome(final(p).source(), final(p).position()) {
                        Ok(()) => r == Ok::<T, ParseError>(x),
                        Err(e) => r == Err::<T, ParseError>(e),
                    },
                }
            },
{
    let mut parser = Parser::new(src, buf);
    let v = f(&mut parser);
    match v {
        Err(e) => Err(e),
        Ok(x) => match parser.finish() {
            Ok(()) => Ok(x),
            Err(e) => Err(e),
        },
    }
}

/// The same as [`parse_sized_as`].
pub fn parse_manual_sized<'s, 'b, T, F>(buf: &'b mut [u8], src: &'s [u8], f: F) -> (r: Result<
    T,
    ParseError,
>) where F: FnOnce(&mut Parser<'s, 'b>) -> Result<T, ParseError>
    requires
        forall|p: &mut Parser<'s, 'b>| f.requires((p,)),
    ensures
        exists|p: &mut Parser<'s, 'b>, v: Result<T, ParseError>|
            {
                &&& p.source() == src@
                &&& p.capacity() == old(buf)@.len()
                &&& p.position() == 0
                &&& !p.at_first()
                &&& #[trigger] f.ensures((p,), v)
                &&& match v {
                    Err(e) => r == Err::<T, ParseError>(e),
                    Ok(x) => match finish_outcome(final(p).source(), final(p).position()) {
                        Ok(()) => r == Ok::<T, ParseError>(x),
                        Err(e) => r == Err::<T, ParseError>(e),
                    },
                }
            },
{
    parse_sized_as(buf, src, f)
}

/// Runs `f` on a parser over `src` with a scratch buffer as long as the source, then
/// requires that only whitespace is left: the result is `f`'s error, the error of that
/// check, or `f`'s value.
pub fn parse_as<'s, T, F>(src: &'s [u8], f: F) -> (r: Result<T, ParseError>) where
    F: for <'b>FnOnce(&mut Parser<'s, 'b>) -> Result<T, ParseError>,
    requires
        forall|p: &mut Parser<'s, '_>| f.requires((p,)),
    ensures
        exists|p: &mut Parser<'s, '_>, v: Result<T, ParseError>|
            {
                &&& p.source() == src@
                &&& p.capacity() == scratch_size(src@)
                &&& p.position() == 0
                &&& !p.at_first()
                &&& #[trigger] f.ensures((p,), v)
                &&& match v {
                    Err(e) => r == Err::<T, ParseError>(e),
                    Ok(x) => match finish_outcome(final(p).source(), final(p).position()) {
                        Ok(()) => r == Ok::<T, ParseError>(x),
                        Err(e) => r == Err::<T, ParseError>(e),
                    },
                }
            },
{
    let n = if src.len() == 0 {
        1
    } else {
        src.len()
    };
    let mut scratch: Vec<u8> = vec![0u8; n];
    parse_sized_as(scratch.as_mut_slice(), src, f)
}

/// The same as [`parse_as`].
pub fn parse_manual<'s, T, F>(src: &'s [u8], f: F) -> (r: Result<T, ParseError>) where
    F: for <'b>FnOnce(&mut Parser<'s, 'b>) -> Result<T, ParseError>,
    requires
        forall|p: &mut Parser<'s, '_>| f.requires((p,)),
    ensures
        exists|p: &mut Parser<'s, '_>, v: Result<T, ParseError>|
            {
                &&& p.source() == src@
                &&& p.capacity() == scratch_size(src@)
                &&& p.position() == 0
                &&& !p.at_first()
                &&& #[trigger] f.ensures((p,), v)
                &&& match v {
                    Err(e) => r == Err::<T, ParseError>(e),
                    Ok(x) => match finish_outcome(final(p).source(), final(p).position()) {
                        Ok(()) => r == Ok::<T, ParseError>(x),
                        Err(e) => r == Err::<T, ParseError>(e),
                    },
                }
            },
{
    parse_as(src, f)
}

} // verus!
