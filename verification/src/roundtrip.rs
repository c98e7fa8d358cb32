//! Reading back what the serializer writes, wherever in a source it stands.
use vstd::prelude::*;
use vstd::utf8::*;

use crate::deserialize::Token;
use crate::error::ParseError;
use crate::format::{decimal, escape_bytes, int_text, quoted};
use crate::grammar::{
    digits_end, expect_outcome, false_word, finish_outcome, is_digit, is_ws, matches_at, null_word,
    number_end, scan_str, skip_ws, string_value_outcome, true_word, StrScan,
};
use crate::laws::{lemma_decimal, lemma_escape_len, lemma_int_text_token, lemma_scan_escaped};
use crate::number::IntParse;
use crate::serialize::{item_prefix, items_text, lemma_items_text_prefix, Serialize};
use crate::values::{
    fixed_items_end, int_read_end, int_read_gives, items_end, items_give, scratch_size, Deserialize,
};

verus! {

/// The position `q` of `src` ends a value: the source ends there, or it holds
/// whitespace, `,`, `]` or `}`.
pub open spec fn ends_value(src: Seq<u8>, q: int) -> bool {
    q == src.len() || (0 <= q < src.len() && (is_ws(src[q]) || src[q] == 0x2C || src[q] == 0x5D
        || src[q] == 0x7D))
}

/// `text` stands in `src` at `p`, and a value ends right after it.
pub open spec fn placed(src: Seq<u8>, p: int, text: Seq<u8>) -> bool {
    &&& 0 <= p
    &&& p + text.len() <= src.len()
    &&& src.subrange(p, p + text.len()) == text
    &&& ends_value(src, p + text.len())
}

/// `text` opens with a byte that starts a value: it is not empty, and its first byte is
/// not whitespace, `,`, `:`, `]` or `}`.
pub open spec fn starts_value(text: Seq<u8>) -> bool {
    text.len() > 0 && !is_ws(text[0]) && text[0] != 0x2C && text[0] != 0x3A && text[0] != 0x5D
        && text[0] != 0x7D
}

/// Reading a `T` at `p` in `src` with `cap` bytes of scratch space ends after `len` bytes,
/// and every value it gives has the deep view of `v`.
pub open spec fn read_back_at<'s, 'b, T: Deserialize<'s, 'b> + DeepView>(
    v: T,
    len: nat,
    src: Seq<u8>,
    p: int,
    cap: nat,
) -> bool {
    &&& T::read_end(src, p, cap) == Ok::<int, ParseError>(p + len)
    &&& forall|w: T| #[trigger] T::read_gives(src, p, cap, w) ==> w.deep_view() == v.deep_view()
}

/// `v`'s compact text starts a value, and reads back as `v` wherever it is placed, at any
/// depth, given a scratch buffer as long as the source.
#[verifier::opaque]
pub open spec fn reads_back<'s, 'b, T: Serialize + Deserialize<'s, 'b> + DeepView>(v: T) -> bool {
    &&& forall|d: nat| #[trigger] starts_value(v.json_text(0, d))
    &&& forall|d: nat, src: Seq<u8>, p: int, cap: nat|
        placed(src, p, v.json_text(0, d)) && src.len() <= cap ==> #[trigger] read_back_at(
            v,
            v.json_text(0, d).len(),
            src,
            p,
            cap,
        )
}

/// Bytes at `q` of `src` equal those at `q - p` of the placed `text`.
pub(crate) proof fn lemma_placed_byte(src: Seq<u8>, p: int, text: Seq<u8>, q: int)
    requires
        0 <= p,
        p + text.len() <= src.len(),
        src.subrange(p, p + text.len()) == text,
        p <= q < p + text.len(),
    ensures
        src[q] == text[q - p],
{
    assert(src[q] == src.subrange(p, p + text.len())[q - p]);
}

/// A `String` reads back wherever its text is placed.
pub proof fn law_string_reads_back<'s, 'b>(v: String)
    ensures
        reads_back::<'s, 'b, String>(v),
{
    reveal(reads_back);
    let s = encode_utf8(v@);
    encode_utf8_valid_utf8(v@);
    lemma_escape_len(s);
    assert forall|d: nat| #[trigger] starts_value(v.json_text(0, d)) by {
        assert(v.json_text(0, d)[0] == 0x22);
    }
    assert forall|d: nat, src: Seq<u8>, p: int, cap: nat|
        placed(src, p, v.json_text(0, d)) && src.len() <= cap implies #[trigger] read_back_at::<'s, 'b, String>(
        v,
        v.json_text(0, d).len(),
        src,
        p,
        cap,
    ) by {
        let text = quoted(s);
        let e = escape_bytes(s);
        let n = e.len() as int;
        assert(text == seq![0x22u8] + e + seq![0x22u8]);
        lemma_placed_byte(src, p, text, p);
        lemma_placed_byte(src, p, text, p + 1 + n);
        assert(src.subrange(p + 1, p + 1 + n) =~= e) by {
            assert forall|t: int| 0 <= t < n implies src.subrange(p + 1, p + 1 + n)[t] == e[t] by {
                lemma_placed_byte(src, p, text, p + 1 + t);
            }
        }
        assert(skip_ws(src, p) == p);
        lemma_scan_escaped(src, p + 1, s, Seq::empty(), p);
        assert(Seq::<u8>::empty() + s =~= s);
        assert(scan_str(src, p + 1 + n, s, p) == (StrScan::Done { end: p + 2 + n, content: s }));
        assert(string_value_outcome(src, p, cap) == Ok::<(Seq<u8>, int), ParseError>((s, p + 2 + n)));
        assert forall|w: String| #[trigger] <String as Deserialize<'s, 'b>>::read_gives(src, p, cap, w)
            implies w.deep_view() == v.deep_view() by {
            encode_utf8_decode_utf8(w@);
            encode_utf8_decode_utf8(v@);
        }
    }
}

/// A `bool` reads back wherever its text is placed.
pub proof fn law_bool_reads_back<'s, 'b>(v: bool)
    ensures
        reads_back::<'s, 'b, bool>(v),
{
    reveal(reads_back);
    assert forall|d: nat| #[trigger] starts_value(v.json_text(0, d)) by {}
    assert forall|d: nat, src: Seq<u8>, p: int, cap: nat|
        placed(src, p, v.json_text(0, d)) && src.len() <= cap implies #[trigger] read_back_at::<'s, 'b, bool>(
        v,
        v.json_text(0, d).len(),
        src,
        p,
        cap,
    ) by {
        let text = v.json_text(0, d);
        lemma_placed_byte(src, p, text, p);
        assert(skip_ws(src, p) == p);
        if v {
            assert(matches_at(src, p, true_word()));
        } else {
            assert(src[p] == 0x66);
            assert(!matches_at(src, p, true_word())) by {
                assert(src.subrange(p, p + 4)[0] == src[p]);
            }
            assert(matches_at(src, p, false_word()));
        }
    }
}

/// A run of digits from `i` that stops at `e`, where no digit stands, ends at `e`.
proof fn lemma_digits_upto(src: Seq<u8>, i: int, e: int)
    requires
        0 <= i <= e <= src.len(),
        forall|t: int| i <= t < e ==> is_digit(#[trigger] src[t]),
        e == src.len() || !is_digit(src[e]),
    ensures
        digits_end(src, i) == e,
    decreases e - i,
{
    if i < e {
        lemma_digits_upto(src, i + 1, e);
    }
}

/// An integer's text placed at `p` reads back, into a type that holds it, as the same
/// integer.
proof fn lemma_int_placed<T: IntParse>(x: int, src: Seq<u8>, p: int)
    requires
        placed(src, p, int_text(x)),
        T::accepts(x < 0, (if x < 0 { -x } else { x }) as nat),
    ensures
        starts_value(int_text(x)),
        int_read_end::<T>(src, p) == Ok::<int, ParseError>(p + int_text(x).len()),
        forall|w: T| #[trigger] int_read_gives::<T>(src, p, w) <==> w.as_int() == x,
{
    let mag = (if x < 0 { -x } else { x }) as nat;
    lemma_decimal(mag);
    lemma_int_text_token(x);
    let d0 = decimal(mag);
    let i0: int = if x < 0 { 1 } else { 0 };
    let text = int_text(x);
    assert(text.skip(i0) =~= d0);
    assert(text[i0] == d0[0]);
    let e = p + text.len();
    assert forall|t: int| p + i0 <= t < e implies is_digit(#[trigger] src[t]) by {
        lemma_placed_byte(src, p, text, t);
        assert(text[t - p] == d0[t - p - i0]);
    }
    lemma_placed_byte(src, p, text, p);
    lemma_placed_byte(src, p, text, p + i0);
    assert(skip_ws(src, p) == p);
    assert(!matches_at(src, p, true_word())) by {
        if matches_at(src, p, true_word()) {
            assert(src.subrange(p, p + 4)[0] == src[p]);
        }
    }
    assert(!matches_at(src, p, false_word())) by {
        if matches_at(src, p, false_word()) {
            assert(src.subrange(p, p + 5)[0] == src[p]);
        }
    }
    assert(!matches_at(src, p, null_word())) by {
        if matches_at(src, p, null_word()) {
            assert(src.subrange(p, p + 4)[0] == src[p]);
        }
    }
    if mag > 0 {
        lemma_digits_upto(src, p + i0, e);
    } else {
        assert(e == p + i0 + 1);
    }
    assert(number_end(src, p) == Some(e));
    assert(expect_outcome(src, p, Token::Number) == Ok::<(int, int), ParseError>((p, e)));
    assert(src.subrange(p, e) == text);
}

/// An `i8` reads back wherever its text is placed.
pub proof fn law_i8_reads_back<'s, 'b>(v: i8)
    ensures
        reads_back::<'s, 'b, i8>(v),
{
    reveal(reads_back);
    assert forall|d: nat, src: Seq<u8>, p: int, cap: nat|
        placed(src, p, v.json_text(0, d)) && src.len() <= cap implies #[trigger] read_back_at::<'s, 'b, i8>(
        v,
        v.json_text(0, d).len(),
        src,
        p,
        cap,
    ) by {
        lemma_int_placed::<i8>(v as int, src, p);
    }
    assert forall|d: nat| #[trigger] starts_value(v.json_text(0, d)) by {
        lemma_int_text_token(v as int);
        lemma_decimal((if v < 0 { -v } else { v as int }) as nat);
        let i0: int = if v < 0 { 1 } else { 0 };
        assert(int_text(v as int)[i0] == decimal((if v < 0 { -v } else { v as int }) as nat)[0]);
    }
}

/// An `i16` reads back wherever its text is placed.
pub proof fn law_i16_reads_back<'s, 'b>(v: i16)
    ensures
        reads_back::<'s, 'b, i16>(v),
{
    reveal(reads_back);
    assert forall|d: nat, src: Seq<u8>, p: int, cap: nat|
        placed(src, p, v.json_text(0, d)) && src.len() <= cap implies #[trigger] read_back_at::<'s, 'b, i16>(
        v,
        v.json_text(0, d).len(),
        src,
        p,
        cap,
    ) by {
        lemma_int_placed::<i16>(v as int, src, p);
    }
    assert forall|d: nat| #[trigger] starts_value(v.json_text(0, d)) by {
        lemma_int_text_token(v as int);
        lemma_decimal((if v < 0 { -v } else { v as int }) as nat);
        let i0: int = if v < 0 { 1 } else { 0 };
        assert(int_text(v as int)[i0] == decimal((if v < 0 { -v } else { v as int }) as nat)[0]);
    }
}

/// An `i32` reads back wherever its text is placed.
pub proof fn law_i32_reads_back<'s, 'b>(v: i32)
    ensures
        reads_back::<'s, 'b, i32>(v),
{
    reveal(reads_back);
    assert forall|d: nat, src: Seq<u8>, p: int, cap: nat|
        placed(src, p, v.json_text(0, d)) && src.len() <= cap implies #[trigger] read_back_at::<'s, 'b, i32>(
        v,
        v.json_text(0, d).len(),
        src,
        p,
        cap,
    ) by {
        lemma_int_placed::<i32>(v as int, src, p);
    }
    assert forall|d: nat| #[trigger] starts_value(v.json_text(0, d)) by {
        lemma_int_text_token(v as int);
        lemma_decimal((if v < 0 { -v } else { v as int }) as nat);
        let i0: int = if v < 0 { 1 } else { 0 };
        assert(int_text(v as int)[i0] == decimal((if v < 0 { -v } else { v as int }) as nat)[0]);
    }
}

/// An `i64` reads back wherever its text is placed.
pub proof fn law_i64_reads_back<'s, 'b>(v: i64)
    ensures
        reads_back::<'s, 'b, i64>(v),
{
    reveal(reads_back);
    assert forall|d: nat, src: Seq<u8>, p: int, cap: nat|
        placed(src, p, v.json_text(0, d)) && src.len() <= cap implies #[trigger] read_back_at::<'s, 'b, i64>(
        v,
        v.json_text(0, d).len(),
        src,
        p,
        cap,
    ) by {
        lemma_int_placed::<i64>(v as int, src, p);
    }
    assert forall|d: nat| #[trigger] starts_value(v.json_text(0, d)) by {
        lemma_int_text_token(v as int);
        lemma_decimal((if v < 0 { -v } else { v as int }) as nat);
        let i0: int = if v < 0 { 1 } else { 0 };
        assert(int_text(v as int)[i0] == decimal((if v < 0 { -v } else { v as int }) as nat)[0]);
    }
}

/// An `i128` reads back wherever its text is placed.
pub proof fn law_i128_reads_back<'s, 'b>(v: i128)
    ensures
        reads_back::<'s, 'b, i128>(v),
{
    reveal(reads_back);
    assert forall|d: nat, src: Seq<u8>, p: int, cap: nat|
        placed(src, p, v.json_text(0, d)) && src.len() <= cap implies #[trigger] read_back_at::<'s, 'b, i128>(
        v,
        v.json_text(0, d).len(),
        src,
        p,
        cap,
    ) by {
        lemma_int_placed::<i128>(v as int, src, p);
    }
    assert forall|d: nat| #[trigger] starts_value(v.json_text(0, d)) by {
        lemma_int_text_token(v as int);
        lemma_decimal((if v < 0 { -v } else { v as int }) as nat);
        let i0: int = if v < 0 { 1 } else { 0 };
        assert(int_text(v as int)[i0] == decimal((if v < 0 { -v } else { v as int }) as nat)[0]);
    }
}

/// An `isize` reads back wherever its text is placed.
pub proof fn law_isize_reads_back<'s, 'b>(v: isize)
    ensures
        reads_back::<'s, 'b, isize>(v),
{
    reveal(reads_back);
    assert forall|d: nat, src: Seq<u8>, p: int, cap: nat|
        placed(src, p, v.json_text(0, d)) && src.len() <= cap implies #[trigger] read_back_at::<'s, 'b, isize>(
        v,
        v.json_text(0, d).len(),
        src,
        p,
        cap,
    ) by {
        lemma_int_placed::<isize>(v as int, src, p);
    }
    assert forall|d: nat| #[trigger] starts_value(v.json_text(0, d)) by {
        lemma_int_text_token(v as int);
        lemma_decimal((if v < 0 { -v } else { v as int }) as nat);
        let i0: int = if v < 0 { 1 } else { 0 };
        assert(int_text(v as int)[i0] == decimal((if v < 0 { -v } else { v as int }) as nat)[0]);
    }
}

/// An `u8` reads back wherever its text is placed.
pub proof fn law_u8_reads_back<'s, 'b>(v: u8)
    ensures
        reads_back::<'s, 'b, u8>(v),
{
    reveal(reads_back);
    assert forall|d: nat, src: Seq<u8>, p: int, cap: nat|
        placed(src, p, v.json_text(0, d)) && src.len() <= cap implies #[trigger] read_back_at::<'s, 'b, u8>(
        v,
        v.json_text(0, d).len(),
        src,
        p,
        cap,
    ) by {
        lemma_int_placed::<u8>(v as int, src, p);
    }
    assert forall|d: nat| #[trigger] starts_value(v.json_text(0, d)) by {
        lemma_int_text_token(v as int);
        lemma_decimal((if v < 0 { -v } else { v as int }) as nat);
        let i0: int = if v < 0 { 1 } else { 0 };
        assert(int_text(v as int)[i0] == decimal((if v < 0 { -v } else { v as int }) as nat)[0]);
    }
}

/// An `u16` reads back wherever its text is placed.
pub proof fn law_u16_reads_back<'s, 'b>(v: u16)
    ensures
        reads_back::<'s, 'b, u16>(v),
{
    reveal(reads_back);
    assert forall|d: nat, src: Seq<u8>, p: int, cap: nat|
        placed(src, p, v.json_text(0, d)) && src.len() <= cap implies #[trigger] read_back_at::<'s, 'b, u16>(
        v,
        v.json_text(0, d).len(),
        src,
        p,
        cap,
    ) by {
        lemma_int_placed::<u16>(v as int, src, p);
    }
    assert forall|d: nat| #[trigger] starts_value(v.json_text(0, d)) by {
        lemma_int_text_token(v as int);
        lemma_decimal((if v < 0 { -v } else { v as int }) as nat);
        let i0: int = if v < 0 { 1 } else { 0 };
        assert(int_text(v as int)[i0] == decimal((if v < 0 { -v } else { v as int }) as nat)[0]);
    }
}

/// An `u32` reads back wherever its text is placed.
pub proof fn law_u32_reads_back<'s, 'b>(v: u32)
    ensures
        reads_back::<'s, 'b, u32>(v),
{
    reveal(reads_back);
    assert forall|d: nat, src: Seq<u8>, p: int, cap: nat|
        placed(src, p, v.json_text(0, d)) && src.len() <= cap implies #[trigger] read_back_at::<'s, 'b, u32>(
        v,
        v.json_text(0, d).len(),
        src,
        p,
        cap,
    ) by {
        lemma_int_placed::<u32>(v as int, src, p);
    }
    assert forall|d: nat| #[trigger] starts_value(v.json_text(0, d)) by {
        lemma_int_text_token(v as int);
        lemma_decimal((if v < 0 { -v } else { v as int }) as nat);
        let i0: int = if v < 0 { 1 } else { 0 };
        assert(int_text(v as int)[i0] == decimal((if v < 0 { -v } else { v as int }) as nat)[0]);
    }
}

/// An `u64` reads back wherever its text is placed.
pub proof fn law_u64_reads_back<'s, 'b>(v: u64)
    ensures
        reads_back::<'s, 'b, u64>(v),
{
    reveal(reads_back);
    assert forall|d: nat, src: Seq<u8>, p: int, cap: nat|
        placed(src, p, v.json_text(0, d)) && src.len() <= cap implies #[trigger] read_back_at::<'s, 'b, u64>(
        v,
        v.json_text(0, d).len(),
        src,
        p,
        cap,
    ) by {
        lemma_int_placed::<u64>(v as int, src, p);
    }
    assert forall|d: nat| #[trigger] starts_value(v.json_text(0, d)) by {
        lemma_int_text_token(v as int);
        lemma_decimal((if v < 0 { -v } else { v as int }) as nat);
        let i0: int = if v < 0 { 1 } else { 0 };
        assert(int_text(v as int)[i0] == decimal((if v < 0 { -v } else { v as int }) as nat)[0]);
    }
}

/// An `u128` reads back wherever its text is placed.
pub proof fn law_u128_reads_back<'s, 'b>(v: u128)
    ensures
        reads_back::<'s, 'b, u128>(v),
{
    reveal(reads_back);
    assert forall|d: nat, src: Seq<u8>, p: int, cap: nat|
        placed(src, p, v.json_text(0, d)) && src.len() <= cap implies #[trigger] read_back_at::<'s, 'b, u128>(
        v,
        v.json_text(0, d).len(),
        src,
        p,
        cap,
    ) by {
        lemma_int_placed::<u128>(v as int, src, p);
    }
    assert forall|d: nat| #[trigger] starts_value(v.json_text(0, d)) by {
        lemma_int_text_token(v as int);
        lemma_decimal((if v < 0 { -v } else { v as int }) as nat);
        let i0: int = if v < 0 { 1 } else { 0 };
        assert(int_text(v as int)[i0] == decimal((if v < 0 { -v } else { v as int }) as nat)[0]);
    }
}

/// An `usize` reads back wherever its text is placed.
pub proof fn law_usize_reads_back<'s, 'b>(v: usize)
    ensures
        reads_back::<'s, 'b, usize>(v),
{
    reveal(reads_back);
    assert forall|d: nat, src: Seq<u8>, p: int, cap: nat|
        placed(src, p, v.json_text(0, d)) && src.len() <= cap implies #[trigger] read_back_at::<'s, 'b, usize>(
        v,
        v.json_text(0, d).len(),
        src,
        p,
        cap,
    ) by {
        lemma_int_placed::<usize>(v as int, src, p);
    }
    assert forall|d: nat| #[trigger] starts_value(v.json_text(0, d)) by {
        lemma_int_text_token(v as int);
        lemma_decimal((if v < 0 { -v } else { v as int }) as nat);
        let i0: int = if v < 0 { 1 } else { 0 };
        assert(int_text(v as int)[i0] == decimal((if v < 0 { -v } else { v as int }) as nat)[0]);
    }
}

/// A value that reads back wherever it is placed reads back as a whole document: the read
/// ends at the end of its text, nothing but the end of input follows, and every value it
/// gives has the deep view of `v`.
pub proof fn law_document_roundtrip<'s, 'b, T: Serialize + Deserialize<'s, 'b> + DeepView>(v: T)
    requires
        reads_back::<'s, 'b, T>(v),
    ensures
        ({
            let src = v.json_text(0, 0);
            &&& T::read_end(src, 0, scratch_size(src)) == Ok::<int, ParseError>(src.len() as int)
            &&& finish_outcome(src, src.len() as int) == Ok::<(), ParseError>(())
            &&& forall|w: T| #[trigger] T::read_gives(src, 0, scratch_size(src), w) ==> w.deep_view()
                == v.deep_view()
        }),
{
    reveal(reads_back);
    let src = v.json_text(0, 0);
    assert(src.subrange(0, src.len() as int) =~= src);
    assert(placed(src, 0, src));
    assert(read_back_at::<'s, 'b, T>(v, src.len(), src, 0, scratch_size(src)));
    assert(skip_ws(src, src.len() as int) == src.len());
}

/// The items of an array whose text stands at `p0` (after the `[`), followed by `]`, read
/// back from the position of item `k` on: the read ends after the `]`, and the values it
/// gives are the remaining items, deeply.
#[verifier::rlimit(40)]
proof fn lemma_items_read_back<'s, 'b, T: Serialize + Deserialize<'s, 'b> + DeepView>(
    items: Seq<T>,
    k: nat,
    d: nat,
    src: Seq<u8>,
    p0: int,
    cap: nat,
)
    requires
        forall|i: int| 0 <= i < items.len() ==> reads_back::<'s, 'b, T>(#[trigger] items[i]),
        k <= items.len(),
        0 <= p0,
        p0 + items_text(items, 0, d).len() < src.len(),
        src.subrange(p0, p0 + items_text(items, 0, d).len()) == items_text(items, 0, d),
        src[p0 + items_text(items, 0, d).len()] == 0x5D,
        src.len() <= cap,
    ensures
        ({
            let q = p0 + items_text(items.take(k as int), 0, d).len();
            let first = k == 0;
            &&& items_end::<T>(src, q, first, cap) == Ok::<int, ParseError>(
                p0 + items_text(items, 0, d).len() + 1,
            )
            &&& fixed_items_end::<T>(src, q, first, cap, (items.len() - k) as nat) == Ok::<
                int,
                ParseError,
            >(p0 + items_text(items, 0, d).len() + 1)
            &&& forall|ws: Seq<T>|
                #[trigger] items_give::<T>(src, q, first, cap, ws) ==> ws.len() == items.len() - k
                    && forall|j: int| 0 <= j < ws.len() ==> #[trigger] ws[j].deep_view() == items[k
                    + j].deep_view()
        }),
    decreases items.len() - k,
{
    reveal(reads_back);
    let body = items_text(items, 0, d);
    let tk = items_text(items.take(k as int), 0, d);
    let q = p0 + tk.len();
    let first = k == 0;
    lemma_items_text_prefix(items, k, 0, d);
    if k == items.len() {
        assert(items.take(k as int) =~= items);
        assert(skip_ws(src, q) == q);
    } else {
        let t1 = items.take(k as int + 1);
        assert(t1.drop_last() =~= items.take(k as int));
        assert(t1.last() == items[k as int]);
        let x = items[k as int];
        let jt = x.json_text(0, d);
        let ip = item_prefix(k, 0, d);
        let tk1 = items_text(t1, 0, d);
        assert(tk1 == tk + ip + jt);
        lemma_items_text_prefix(items, k + 1, 0, d);
        let a = q + ip.len();
        let e = a + jt.len();
        assert(e == p0 + tk1.len());
        assert forall|t: int| p0 <= t < p0 + tk1.len() implies src[t] == tk1[t - p0] by {
            lemma_placed_byte(src, p0, body, t);
            assert(body[t - p0] == body.take(tk1.len() as int)[t - p0]);
        }
        assert(reads_back::<'s, 'b, T>(x));
        assert(starts_value(x.json_text(0, d)));
        assert(src.subrange(a, e) =~= jt) by {
            assert forall|t: int| 0 <= t < jt.len() implies src.subrange(a, e)[t] == jt[t] by {
                assert(src[a + t] == tk1[a + t - p0]);
                assert(tk1[a + t - p0] == (tk + ip + jt)[tk.len() + ip.len() + t]);
            }
        }
        assert(src[a] == jt[0]) by {
            assert(src.subrange(a, e)[0] == src[a]);
        }
        if k + 1 < items.len() {
            let t2 = items.take(k as int + 2);
            assert(t2.drop_last() =~= t1);
            lemma_items_text_prefix(items, k + 2, 0, d);
            let tk2 = items_text(t2, 0, d);
            assert(tk2 == tk1 + item_prefix(k + 1, 0, d) + t2.last().json_text(0, d));
            assert(src[e] == tk2[tk1.len() as int]) by {
                lemma_placed_byte(src, p0, body, e);
                assert(body[e - p0] == body.take(tk2.len() as int)[e - p0]);
            }
            assert(src[e] == 0x2C);
        } else {
            assert(t1 =~= items);
        }
        assert(ends_value(src, e));
        assert(placed(src, a, jt));
        assert(read_back_at::<'s, 'b, T>(x, jt.len(), src, a, cap));
        if k > 0 {
            assert(src[q] == tk1[tk.len() as int]);
            assert(src[q] == 0x2C);
        } else {
            assert(ip =~= Seq::<u8>::empty());
        }
        assert(skip_ws(src, q) == q);
        lemma_items_read_back::<'s, 'b, T>(items, k + 1, d, src, p0, cap);
        assert(items_end::<T>(src, q, first, cap) == items_end::<T>(src, e, false, cap));
        assert(fixed_items_end::<T>(src, q, first, cap, (items.len() - k) as nat)
            == fixed_items_end::<T>(src, e, false, cap, (items.len() - (k + 1)) as nat));
        assert forall|ws: Seq<T>|
            #[trigger] items_give::<T>(src, q, first, cap, ws) implies ws.len() == items.len() - k
                && forall|j: int| 0 <= j < ws.len() ==> #[trigger] ws[j].deep_view() == items[k
                + j].deep_view() by {
            let rest = ws.skip(1);
            assert(items_give::<T>(src, e, false, cap, rest));
            assert forall|j: int| 0 <= j < ws.len() implies #[trigger] ws[j].deep_view() == items[k
                + j].deep_view() by {
                if j > 0 {
                    assert(rest[j - 1] == ws[j]);
                    assert(rest[j - 1].deep_view() == items[k + 1 + (j - 1)].deep_view());
                }
            }
        }
    }
}

/// A `Vec` whose items each read back wherever they are placed reads back wherever its
/// own text is placed.
pub proof fn law_vec_reads_back<'s, 'b, T: Serialize + Deserialize<'s, 'b> + DeepView>(v: Vec<T>)
    requires
        forall|i: int| 0 <= i < v.len() ==> reads_back::<'s, 'b, T>(#[trigger] v@[i]),
    ensures
        reads_back::<'s, 'b, Vec<T>>(v),
{
    reveal(reads_back);
    assert forall|d: nat| #[trigger] starts_value(v.json_text(0, d)) by {
        assert(v.json_text(0, d)[0] == 0x5B);
    }
    assert forall|d: nat, src: Seq<u8>, p: int, cap: nat|
        placed(src, p, v.json_text(0, d)) && src.len() <= cap implies #[trigger] read_back_at::<'s, 'b, Vec<T>>(
        v,
        v.json_text(0, d).len(),
        src,
        p,
        cap,
    ) by {
        let text = v.json_text(0, d);
        let body = items_text(v@, 0, d + 1);
        assert(text == seq![0x5Bu8] + body + seq![0x5Du8]);
        let p0 = p + 1;
        lemma_placed_byte(src, p, text, p);
        lemma_placed_byte(src, p, text, p0 + body.len());
        assert(src.subrange(p0, p0 + body.len()) =~= body) by {
            assert forall|t: int| 0 <= t < body.len() implies src.subrange(p0, p0 + body.len())[t] == body[t] by {
                lemma_placed_byte(src, p, text, p0 + t);
            }
        }
        assert(skip_ws(src, p) == p);
        assert(expect_outcome(src, p, Token::OpenBracket) == Ok::<(int, int), ParseError>((p, p0)));
        lemma_items_read_back::<'s, 'b, T>(v@, 0, d + 1, src, p0, cap);
        assert(v@.take(0) =~= Seq::<T>::empty());
        assert forall|w: Vec<T>| #[trigger] <Vec<T> as Deserialize<'s, 'b>>::read_gives(src, p, cap, w)
            implies w.deep_view() == v.deep_view() by {
            assert(items_give::<T>(src, p0, true, cap, w@));
            assert(w.deep_view() =~= v.deep_view());
        }
    }
}

/// A fixed-size array whose items each read back wherever they are placed reads back
/// wherever its own text is placed.
pub proof fn law_array_reads_back<'s, 'b, T: Serialize + Deserialize<'s, 'b> + DeepView, const N: usize>(
    v: [T; N],
)
    requires
        forall|i: int| 0 <= i < N ==> reads_back::<'s, 'b, T>(#[trigger] v@[i]),
    ensures
        reads_back::<'s, 'b, [T; N]>(v),
{
    reveal(reads_back);
    assert forall|d: nat| #[trigger] starts_value(v.json_text(0, d)) by {
        assert(v.json_text(0, d)[0] == 0x5B);
    }
    assert forall|d: nat, src: Seq<u8>, p: int, cap: nat|
        placed(src, p, v.json_text(0, d)) && src.len() <= cap implies #[trigger] read_back_at::<'s, 'b, [T; N]>(
        v,
        v.json_text(0, d).len(),
        src,
        p,
        cap,
    ) by {
        let text = v.json_text(0, d);
        let body = items_text(v@, 0, d + 1);
        assert(text == seq![0x5Bu8] + body + seq![0x5Du8]);
        let p0 = p + 1;
        lemma_placed_byte(src, p, text, p);
        lemma_placed_byte(src, p, text, p0 + body.len());
        assert(src.subrange(p0, p0 + body.len()) =~= body) by {
            assert forall|t: int| 0 <= t < body.len() implies src.subrange(p0, p0 + body.len())[t] == body[t] by {
                lemma_placed_byte(src, p, text, p0 + t);
            }
        }
        assert(skip_ws(src, p) == p);
        assert(expect_outcome(src, p, Token::OpenBracket) == Ok::<(int, int), ParseError>((p, p0)));
        lemma_items_read_back::<'s, 'b, T>(v@, 0, d + 1, src, p0, cap);
        assert(v@.take(0) =~= Seq::<T>::empty());
        assert forall|w: [T; N]| #[trigger] <[T; N] as Deserialize<'s, 'b>>::read_gives(src, p, cap, w)
            implies w.deep_view() == v.deep_view() by {
            assert(items_give::<T>(src, p0, true, cap, w@));
            assert(w.deep_view() =~= v.deep_view());
        }
    }
}

/// A box reads back wherever its text is placed when what it holds does.
pub proof fn law_box_reads_back<'s, 'b, T: Serialize + Deserialize<'s, 'b> + DeepView>(v: Box<T>)
    requires
        reads_back::<'s, 'b, T>(*v),
    ensures
        reads_back::<'s, 'b, Box<T>>(v),
{
    reveal(reads_back);
    assert forall|d: nat| #[trigger] starts_value(v.json_text(0, d)) by {
        assert(starts_value((*v).json_text(0, d)));
    }
    assert forall|d: nat, src: Seq<u8>, p: int, cap: nat|
        placed(src, p, v.json_text(0, d)) && src.len() <= cap implies #[trigger] read_back_at::<'s, 'b, Box<T>>(
        v,
        v.json_text(0, d).len(),
        src,
        p,
        cap,
    ) by {
        assert(read_back_at::<'s, 'b, T>(*v, (*v).json_text(0, d).len(), src, p, cap));
    }
}

/// `None` reads back wherever its text, `null`, is placed.
pub proof fn law_none_reads_back<'s, 'b, T: Serialize + Deserialize<'s, 'b> + DeepView>()
    ensures
        reads_back::<'s, 'b, Option<T>>(None),
{
    reveal(reads_back);
    let v: Option<T> = None;
    assert forall|d: nat| #[trigger] starts_value(v.json_text(0, d)) by {}
    assert forall|d: nat, src: Seq<u8>, p: int, cap: nat|
        placed(src, p, v.json_text(0, d)) && src.len() <= cap implies #[trigger] read_back_at::<'s, 'b, Option<T>>(
        v,
        v.json_text(0, d).len(),
        src,
        p,
        cap,
    ) by {
        let text = v.json_text(0, d);
        lemma_placed_byte(src, p, text, p);
        assert(skip_ws(src, p) == p);
        assert(!matches_at(src, p, true_word())) by {
            if matches_at(src, p, true_word()) {
                assert(src.subrange(p, p + 4)[0] == src[p]);
            }
        }
        assert(!matches_at(src, p, false_word())) by {
            if matches_at(src, p, false_word()) {
                assert(src.subrange(p, p + 5)[0] == src[p]);
            }
        }
        assert(matches_at(src, p, null_word()));
    }
}

/// `Some(x)` reads back wherever its text is placed when `x` does and its text does not
/// start with `n` (which `null` does).
pub proof fn law_some_reads_back<'s, 'b, T: Serialize + Deserialize<'s, 'b> + DeepView>(x: T)
    requires
        reads_back::<'s, 'b, T>(x),
        forall|d: nat| #[trigger] x.json_text(0, d)[0] != 0x6E,
    ensures
        reads_back::<'s, 'b, Option<T>>(Some(x)),
{
    reveal(reads_back);
    let v = Some(x);
    assert forall|d: nat| #[trigger] starts_value(v.json_text(0, d)) by {
        assert(starts_value(x.json_text(0, d)));
    }
    assert forall|d: nat, src: Seq<u8>, p: int, cap: nat|
        placed(src, p, v.json_text(0, d)) && src.len() <= cap implies #[trigger] read_back_at::<'s, 'b, Option<T>>(
        v,
        v.json_text(0, d).len(),
        src,
        p,
        cap,
    ) by {
        let text = x.json_text(0, d);
        assert(starts_value(text));
        assert(text[0] != 0x6E);
        lemma_placed_byte(src, p, text, p);
        assert(skip_ws(src, p) == p);
        assert(read_back_at::<'s, 'b, T>(x, text.len(), src, p, cap));
    }
}

} // verus!
