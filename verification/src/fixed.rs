//! Reading into the fixed-capacity collections of the `arrayvec` crate.
use arrayvec::{ArrayString, ArrayVec};
use vstd::prelude::*;
use vstd::string::StringSliceAdditionalSpecFns;

use crate::deserialize::{Parser, Token};
use crate::error::{ParseError, ParseErrorKind};
use crate::grammar::{
    expect_outcome, item_outcome, lemma_lex_bounds, lemma_string_end, lex, skip_ws, string_value_outcome,
    Lexed,
};
use crate::values::items_end;
use crate::values::Deserialize;
use crate::format::quoted;
use crate::serialize::{array_text, items_serialize_at, serialize_items, Serialize, SerializeError, Serializer};
use crate::write::Write;
use vstd::utf8::valid_utf8;

verus! {

#[verifier::external_type_specification]
#[verifier::external_body]
#[verifier::reject_recursive_types(T)]
pub struct ExArrayVec<T, const CAP: usize>(ArrayVec<T, CAP>);

#[verifier::external_type_specification]
#[verifier::external_body]
pub struct ExArrayString<const CAP: usize>(ArrayString<CAP>);

/// `ArrayVec::new`: an empty vector. arrayvec panics when `CAP` does not fit in a
/// `u32`, which `requires` rules out. What the vector holds is not stated here: the
/// contents of a generic outside collection have no name in this crate.
#[verifier::external_body]
fn arrayvec_new<T, const CAP: usize>() -> (v: ArrayVec<T, CAP>)
    requires
        CAP <= u32::MAX,
{
    ArrayVec::new()
}

/// `ArrayVec::try_push`: appends `x` when the vector has room, and answers whether it
/// did. Neither the vector's contents nor its length has a name in this crate, so the
/// contract states nothing of when the push succeeds.
#[verifier::external_body]
fn arrayvec_try_push<T, const CAP: usize>(v: &mut ArrayVec<T, CAP>, x: T) -> (pushed: bool) {
    v.try_push(x).is_ok()
}

/// `ArrayString::try_from(&str)`: a string holding `s`, which arrayvec gives exactly
/// when the bytes of `s` fit in `CAP`. arrayvec panics when `CAP` does not fit in a
/// `u32`, which `requires` rules out. What the string holds is not stated here: it has
/// no name in this crate.
#[verifier::external_body]
fn arraystring_from<const CAP: usize>(s: &str) -> (r: Option<ArrayString<CAP>>)
    requires
        CAP <= u32::MAX,
    ensures
        r is Some <==> s.spec_bytes().len() <= CAP,
{
    ArrayString::try_from(s).ok()
}

/// `ArrayVec::as_slice`: the items of the vector. They have no name in this crate, so
/// nothing is stated of them.
#[verifier::external_body]
fn arrayvec_as_slice<T, const CAP: usize>(v: &ArrayVec<T, CAP>) -> (items: &[T]) {
    v.as_slice()
}

/// `ArrayString::as_str`: the text of the string, which is valid UTF-8 as every `&str`
/// is. What it holds has no name in this crate.
#[verifier::external_body]
fn arraystring_as_str<const CAP: usize>(s: &ArrayString<CAP>) -> (t: &str) {
    s.as_str()
}

impl<T: Serialize, const CAP: usize> Serialize for ArrayVec<T, CAP> {
    /// Writes the items as a JSON array, as a slice of them is written: the output is
    /// the array text of some sequence of items (which ones is arrayvec's to say).
    fn serialize<W: Write>(&self, ser: &mut Serializer<W, 32>) -> (r: Result<
        (),
        SerializeError<W::Error>,
    >)
        ensures
            T::obeys_json_text() ==> exists|items: Seq<T>|
                {
                    &&& #[trigger] Serializer::<W, 32>::serialize_post(
                        *old(ser),
                        *final(ser),
                        r,
                        array_text(items, old(ser).indent(), old(ser).scopes().len()),
                    )
                    &&& items_serialize_at(items, old(ser).scopes().len()) ==> Serializer::<
                        W,
                        32,
                    >::element_goes_through(
                        *old(ser),
                        *final(ser),
                        r is Ok,
                        array_text(items, old(ser).indent(), old(ser).scopes().len()),
                    )
                },
    {
        let items = arrayvec_as_slice(self);
        serialize_items(items, ser)
    }
}

impl<const CAP: usize> Serialize for ArrayString<CAP> {
    /// Writes the text as a JSON string, as a `&str` holding it is written.
    fn serialize<W: Write>(&self, ser: &mut Serializer<W, 32>) -> (r: Result<
        (),
        SerializeError<W::Error>,
    >)
        ensures
            exists|text: Seq<u8>|
                valid_utf8(text) && #[trigger] Serializer::<W, 32>::value_post(
                    *old(ser),
                    *final(ser),
                    r,
                    quoted(text),
                ),
    {
        let t = arraystring_as_str(self);
        proof {
            vstd::utf8::encode_utf8_valid_utf8(t@);
            assert(valid_utf8(t.spec_bytes()));
        }
        ser.string(t)
    }
}

/// The error for a value that does not fit a fixed capacity: reported at the start of
/// the last token read.
pub open spec fn overflow_at(offset: int) -> ParseError {
    ParseError { kind: ParseErrorKind::StringBufferOverflow, offset: offset as usize }
}

impl<'src, 'buf, const CAP: usize> Deserialize<'src, 'buf> for ArrayString<CAP> {
    open spec fn obeys_read_end() -> bool {
        true
    }

    /// A string literal that decodes to at most `CAP` bytes; a longer one, or a
    /// capacity past `u32::MAX`, gives a capacity error at the literal.
    open spec fn read_end(src: Seq<u8>, pos: int, cap: nat) -> Result<int, ParseError> {
        match string_value_outcome(src, pos, cap) {
            Ok((content, end)) => if CAP <= u32::MAX && content.len() <= CAP {
                Ok(end)
            } else {
                Err(overflow_at(skip_ws(src, pos)))
            },
            Err(e) => Err(e),
        }
    }

    /// What the string holds is not stated: the type has no view here.
    open spec fn read_gives(src: Seq<u8>, pos: int, cap: nat, v: ArrayString<CAP>) -> bool {
        true
    }

    fn deserialize(parser: &mut Parser<'src, 'buf>) -> (r: Result<ArrayString<CAP>, ParseError>) {
        parser.position_in_source();
        proof {
            let src = parser.source();
            let pos = parser.position();
            lemma_lex_bounds(src, pos);
            match lex(src, pos) {
                Lexed::Tok { token, start, end } => {
                    if token == Token::String {
                        lemma_string_end(src, start, parser.capacity(), false);
                    }
                },
                Lexed::Fail { .. } => {},
            }
        }
        let s = match parser.string() {
            Ok(s) => s,
            Err(e) => {
                return Err(e);
            },
        };
        let fits = CAP <= 0xFFFF_FFFFusize;
        let a: Option<ArrayString<CAP>> = if fits {
            arraystring_from::<CAP>(s)
        } else {
            None
        };
        parser.position_in_source();
        match a {
            Some(a) => Ok(a),
            None => Err(ParseError::at(parser.error_offset(), ParseErrorKind::StringBufferOverflow)),
        }
    }
}

/// The array at `pos` opens with `[` and has a first item.
pub open spec fn has_first_item(src: Seq<u8>, pos: int) -> bool {
    expect_outcome(src, pos, Token::OpenBracket) matches Ok((_, p0)) && item_outcome(
        src,
        p0,
        true,
    ) matches Ok((more, _)) && more
}

/// A successful read of the rest of an array from `p` ends after `p`.
proof fn lemma_items_end_after<'src, 'buf, T: Deserialize<'src, 'buf>>(
    src: Seq<u8>,
    p: int,
    first: bool,
    cap: nat,
)
    requires
        0 <= p <= src.len(),
    ensures
        items_end::<T>(src, p, first, cap) matches Ok(end) ==> p < end,
    decreases src.len() - p,
{
    crate::values::lemma_item_bounds(src, p, first);
    match item_outcome(src, p, first) {
        Err(_) => {},
        Ok((more, p1)) => {
            if !more {
                crate::values::lemma_expect_end(src, p1, Token::CloseBracket);
            } else {
                match T::read_end(src, p1, cap) {
                    Err(_) => {},
                    Ok(e) => {
                        if p < e <= src.len() {
                            lemma_items_end_after::<T>(src, e, false, cap);
                        }
                    },
                }
            }
        },
    }
}

/// The capacity error, or the error of a push that found the vector full.
fn push_result(pushed: bool, offset: usize) -> (r: Result<(), ParseError>)
    ensures
        pushed ==> r is Ok,
        !pushed ==> r == Err::<(), ParseError>(overflow_at(offset as int)),
{
    if pushed {
        Ok(())
    } else {
        Err(ParseError::at(offset, ParseErrorKind::StringBufferOverflow))
    }
}

impl<'src, 'buf, T: Deserialize<'src, 'buf>, const CAP: usize> Deserialize<'src, 'buf> for ArrayVec<
    T,
    CAP,
> {
    /// Reads a JSON array, pushing each item as it is read. A capacity past `u32::MAX`
    /// gives the capacity error at once. Otherwise the read goes as for a `Vec` of the
    /// same items (the same positions handed to `T`, the same errors, the same end), except
    /// that a push that finds the vector full stops it with the capacity error at the
    /// start of the last token read; which pushes succeed is arrayvec's to say, so such an
    /// error may come only once an item has been read. `[]` always succeeds.
    fn deserialize(parser: &mut Parser<'src, 'buf>) -> (r: Result<ArrayVec<T, CAP>, ParseError>)
        ensures
            CAP > u32::MAX ==> r == Err::<ArrayVec<T, CAP>, ParseError>(
                overflow_at(old(parser).last_token_start()),
            ),
            CAP <= u32::MAX ==> match expect_outcome(
                old(parser).source(),
                old(parser).position(),
                Token::OpenBracket,
            ) {
                Err(e) => r == Err::<ArrayVec<T, CAP>, ParseError>(e),
                Ok((_, p0)) => match item_outcome(old(parser).source(), p0, true) {
                    Err(e) => r == Err::<ArrayVec<T, CAP>, ParseError>(e),
                    Ok((more, p1)) => !more ==> match expect_outcome(
                        old(parser).source(),
                        p1,
                        Token::CloseBracket,
                    ) {
                        Ok((_, end)) => r is Ok && final(parser).position() == end,
                        Err(e) => r == Err::<ArrayVec<T, CAP>, ParseError>(e),
                    },
                },
            },
            CAP <= u32::MAX && T::obeys_read_end() ==> match <Vec<T> as Deserialize<
                'src,
                'buf,
            >>::read_end(old(parser).source(), old(parser).position(), old(parser).capacity()) {
                Ok(end) => (r is Ok && final(parser).position() == end) || (r matches Err(e)
                    && e.kind is StringBufferOverflow && final(parser).position() < end && items_end::<
                    T,
                >(old(parser).source(), final(parser).position(), false, old(parser).capacity())
                    == Ok::<int, ParseError>(end)),
                Err(e) => r == Err::<ArrayVec<T, CAP>, ParseError>(e) || (r matches Err(e2)
                    && e2.kind is StringBufferOverflow),
            },
            CAP <= u32::MAX && (r matches Err(e) && e.kind is StringBufferOverflow) ==> has_first_item(
                old(parser).source(),
                old(parser).position(),
            ),
    {
        let too_big = CAP > 0xFFFF_FFFFusize;
        if too_big {
            parser.position_in_source();
            return Err(ParseError::at(parser.error_offset(), ParseErrorKind::StringBufferOverflow));
        }
        let mut vec: ArrayVec<T, CAP> = arrayvec_new();
        let ghost p_start = parser.position();
        let ghost src = parser.source();
        let ghost cap = parser.capacity();
        parser.position_in_source();
        proof {
            crate::values::lemma_expect_end(src, p_start, Token::OpenBracket);
        }
        match parser.array_begin() {
            Err(e) => {
                return Err(e);
            },
            Ok(()) => {},
        }
        parser.position_in_source();
        let ghost p0 = parser.position();
        let ghost mut any = false;
        loop
            invariant
                CAP <= u32::MAX,
                parser.source() == src,
                parser.capacity() == cap,
                src == old(parser).source(),
                cap == old(parser).capacity(),
                p_start == old(parser).position(),
                0 <= p_start < p0 <= parser.position() <= src.len(),
                expect_outcome(src, p_start, Token::OpenBracket) matches Ok((_, q)) && q == p0,
                !any ==> parser.position() == p0 && parser.at_first(),
                any ==> has_first_item(src, p_start),
                T::obeys_read_end() ==> items_end::<T>(src, p0, true, cap) == items_end::<T>(
                    src,
                    parser.position(),
                    parser.at_first(),
                    cap,
                ),
            decreases src.len() - parser.position(),
        {
            proof {
                crate::values::lemma_item_bounds(src, parser.position(), parser.at_first());
            }
            match parser.array_item() {
                Err(e) => {
                    return Err(e);
                },
                Ok(more) => {
                    if !more {
                        parser.position_in_source();
                        proof {
                            crate::values::lemma_expect_end(src, parser.position(), Token::CloseBracket);
                        }
                        let end = parser.array_end();
                        parser.position_in_source();
                        return match end {
                            Err(e) => Err(e),
                            Ok(()) => Ok(vec),
                        };
                    }
                },
            }
            proof {
                any = true;
            }
            let x = match T::deserialize(parser) {
                Err(e) => {
                    return Err(e);
                },
                Ok(x) => x,
            };
            parser.position_in_source();
            let pushed = arrayvec_try_push(&mut vec, x);
            let offset = parser.error_offset();
            match push_result(pushed, offset) {
                Err(e) => {
                    proof {
                        if T::obeys_read_end() {
                            lemma_items_end_after::<T>(src, parser.position(), false, cap);
                        }
                    }
                    return Err(e);
                },
                Ok(()) => {},
            }
        }
    }
}

} // verus!
