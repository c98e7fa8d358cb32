//! Properties that relate what the serializer writes to what the parser reads.
use vstd::prelude::*;
use vstd::utf8::*;

use crate::deserialize::Token;
use crate::error::{ParseError, ParseErrorKind};
use crate::format::{
    decimal, escape_byte, escape_bytes, hex_digit, int_text, quoted, scalar_len, unicode_escape,
};
use crate::grammar::{finish_outcome, hex4, hex_val, is_plain_str_byte, is_ws, lemma_scan_plain_run, scan_str, short_escape, skip_ws, string_scanned, string_value_outcome, StrScan, scan_content, all_digits, digits_end, digits_value, int_parts, is_digit, number_end, matches_at, true_word, false_word, null_word, expect_outcome};
use crate::serialize::Serialize;
use crate::number::IntParse;
use crate::values::{int_read_end, int_read_gives, scratch_size, Deserialize};

verus! {

/// A lowercase hex digit reads back as its value.
proof fn lemma_hex_digit(d: u8)
    requires
        d < 16,
    ensures
        hex_val(hex_digit(d)) == d,
{
}

/// The bytes of a scalar of width two or more are not ASCII.
proof fn lemma_scalar_bytes_high(s: Seq<u8>)
    requires
        s.len() > 0,
        valid_first_scalar(s),
        s[0] >= 0x80,
    ensures
        scalar_len(s) > 1,
        scalar_len(s) <= s.len(),
        forall|t: int| 0 <= t < scalar_len(s) ==> #[trigger] s[t] >= 0x80,
{
}

/// Where `src` holds `a + b` at `p`, it holds `a` at `p` and `b` right after it.
proof fn lemma_split_at(src: Seq<u8>, p: int, a: Seq<u8>, b: Seq<u8>)
    requires
        0 <= p,
        p + (a + b).len() <= src.len(),
        src.subrange(p, p + (a + b).len()) == a + b,
    ensures
        src.subrange(p, p + a.len()) == a,
        src.subrange(p + a.len(), p + a.len() + b.len()) == b,
{
    assert forall|t: int| 0 <= t < a.len() implies src.subrange(p, p + a.len())[t] == a[t] by {
        assert(src[p + t] == src.subrange(p, p + (a + b).len())[t]);
    }
    assert forall|t: int| 0 <= t < b.len() implies src.subrange(
        p + a.len(),
        p + a.len() + b.len(),
    )[t] == b[t] by {
        assert(src[p + a.len() + t] == src.subrange(p, p + (a + b).len())[a.len() + t]);
    }
    assert(src.subrange(p, p + a.len()) =~= a);
    assert(src.subrange(p + a.len(), p + a.len() + b.len()) =~= b);
}

/// Reading `\u00XX` for an ASCII byte gives that byte.
proof fn lemma_scan_unicode_escape(src: Seq<u8>, p: int, b: u8, acc: Seq<u8>, tok: int)
    requires
        b < 0x80,
        0 <= p,
        p + 6 <= src.len(),
        src.subrange(p, p + 6) == unicode_escape(b),
    ensures
        scan_str(src, p, acc, tok) == scan_str(src, p + 6, acc.push(b), tok),
{
    let eb = unicode_escape(b);
    assert forall|t: int| 0 <= t < 6 implies #[trigger] src[p + t] == eb[t] by {
        assert(src[p + t] == src.subrange(p, p + 6)[t]);
    }
    assert(src[p + 0] == eb[0]);
    assert(src[p + 1] == eb[1]);
    assert(src[p + 2] == eb[2]);
    assert(src[p + 3] == eb[3]);
    assert(src[p + 4] == eb[4]);
    assert(src[p + 5] == eb[5]);
    lemma_hex_digit(b / 16);
    lemma_hex_digit(b % 16);
    assert(hex4(src, p + 2) == b);
    assert(encode_scalar(b as u32) =~= seq![b]) by {
        assert(((b as u32) & 0x7F) as u8 == b) by (bit_vector)
            requires
                b < 0x80,
        ;
    }
    assert(acc.push(b) =~= acc + seq![b]);
}

/// Reading the escaped form of one ASCII byte gives that byte.
#[verifier::spinoff_prover]
proof fn lemma_scan_ascii(src: Seq<u8>, p: int, b: u8, acc: Seq<u8>, tok: int)
    requires
        b < 0x80,
        0 <= p,
        p + escape_byte(b).len() <= src.len(),
        src.subrange(p, p + escape_byte(b).len()) == escape_byte(b),
    ensures
        scan_str(src, p, acc, tok) == scan_str(src, p + escape_byte(b).len(), acc.push(b), tok),
{
    let eb = escape_byte(b);
    if b == 0x22 || b == 0x5C || b == 0x08 || b == 0x09 || b == 0x0A || b == 0x0C || b == 0x0D {
        assert(src[p] == src.subrange(p, p + 2)[0]);
        assert(src[p + 1] == src.subrange(p, p + 2)[1]);
        assert(short_escape(src[p + 1]) == b);
    } else if 0x20 <= b <= 0x7E {
        assert(src[p] == src.subrange(p, p + 1)[0]);
    } else {
        lemma_scan_unicode_escape(src, p, b, acc, tok);
    }
}

/// Reading the escaped form of valid UTF-8 bytes gives the bytes back.
#[verifier::spinoff_prover]
#[verifier::rlimit(30)]
pub(crate) proof fn lemma_scan_escaped(src: Seq<u8>, p: int, s: Seq<u8>, acc: Seq<u8>, tok: int)
    requires
        valid_utf8(s),
        0 <= p,
        p + escape_bytes(s).len() <= src.len(),
        src.subrange(p, p + escape_bytes(s).len()) == escape_bytes(s),
    ensures
        scan_str(src, p, acc, tok) == scan_str(src, p + escape_bytes(s).len(), acc + s, tok),
    decreases s.len(),
{
    let e = escape_bytes(s);
    if s.len() == 0 {
        assert(acc + s =~= acc);
    } else if s[0] >= 0x80 {
        lemma_scalar_bytes_high(s);
        let n = scalar_len(s);
        let rest = s.skip(n);
        assert(pop_first_scalar(s) =~= rest);
        assert(e == s.take(n) + escape_bytes(rest));
        lemma_split_at(src, p, s.take(n), escape_bytes(rest));
        assert forall|t: int| p <= t < p + n implies is_plain_str_byte(#[trigger] src[t]) by {
            assert(src[t] == src.subrange(p, p + n)[t - p]);
            assert(s.take(n)[t - p] == s[t - p]);
        }
        lemma_scan_plain_run(src, p, p + n, acc, tok);
        lemma_scan_escaped(src, p + n, rest, acc + s.take(n), tok);
        assert(acc + s.take(n) + rest =~= acc + s);
    } else {
        let b = s[0];
        let rest = s.skip(1);
        assert(pop_first_scalar(s) =~= rest);
        let eb = escape_byte(b);
        assert(e == eb + escape_bytes(rest));
        lemma_split_at(src, p, eb, escape_bytes(rest));
        lemma_scan_ascii(src, p, b, acc, tok);
        lemma_scan_escaped(src, p + eb.len(), rest, acc.push(b), tok);
        assert(acc.push(b) + rest =~= acc + s);
    }
}

/// Escaping never makes bytes shorter.
pub(crate) proof fn lemma_escape_len(s: Seq<u8>)
    ensures
        escape_bytes(s).len() >= s.len(),
    decreases s.len(),
{
    if s.len() > 0 {
        if s[0] >= 0x80 && scalar_len(s) > 1 {
            lemma_escape_len(s.skip(scalar_len(s)));
        } else {
            lemma_escape_len(s.skip(1));
        }
    }
}

/// A string the serializer writes for valid UTF-8 bytes reads back as the same bytes,
/// given a scratch buffer that holds them; the read ends right after the string.
pub proof fn law_string_roundtrip(s: Seq<u8>, cap: nat)
    requires
        valid_utf8(s),
        s.len() <= cap,
    ensures
        string_value_outcome(quoted(s), 0, cap) == Ok::<(Seq<u8>, int), ParseError>(
            (s, quoted(s).len() as int),
        ),
{
    let e = escape_bytes(s);
    let n = e.len() as int;
    let src = quoted(s);
    assert(src == seq![0x22u8] + e + seq![0x22u8]);
    assert(src[0] == 0x22);
    assert(skip_ws(src, 0) == 0);
    assert(src.subrange(1, 1 + n) =~= e);
    lemma_scan_escaped(src, 1, s, Seq::empty(), 0);
    assert(Seq::<u8>::empty() + s =~= s);
    assert(src[1 + n] == 0x22);
    assert(scan_str(src, 1 + n, s, 0) == (StrScan::Done { end: 2 + n, content: s }));
}

/// A `String` written by the serializer reads back, as a whole document, as a string
/// with the same characters.
pub proof fn law_string_value_roundtrip(v: String)
    ensures
        ({
            let src = v.json_text(0, 0);
            &&& <String as Deserialize<'static, 'static>>::read_end(src, 0, scratch_size(src))
                == Ok::<int, ParseError>(src.len() as int)
            &&& finish_outcome(src, src.len() as int) == Ok::<(), ParseError>(())
            &&& forall|w: String|
                <String as Deserialize<'static, 'static>>::read_gives(src, 0, scratch_size(src), w)
                    ==> w@ == v@
        }),
{
    let s = encode_utf8(v@);
    let src = quoted(s);
    encode_utf8_valid_utf8(v@);
    lemma_escape_len(s);
    assert(s.len() <= scratch_size(src));
    law_string_roundtrip(s, scratch_size(src));
    assert(skip_ws(src, src.len() as int) == src.len());
    assert forall|w: String|
        <String as Deserialize<'static, 'static>>::read_gives(src, 0, scratch_size(src), w) implies w@
        == v@ by {
        assert(encode_utf8(w@) == encode_utf8(v@));
        encode_utf8_decode_utf8(w@);
        encode_utf8_decode_utf8(v@);
    }
}

/// A string slice is written as the JSON string of its characters, wherever it stands:
/// its text is the text of the `String` holding the same characters (a `&str` and a
/// `str` alike), that text is valid UTF-8, reading it as a string value gives back the
/// slice's bytes and ends at the end of the text, and a `String` read from it holds the
/// slice's characters.
pub proof fn law_str_written_as_its_string<'a>(s: &'a str, t: String, pp: nat, depth: nat)
    requires
        t@ == s@,
    ensures
        <&'a str as Serialize>::json_text(&s, pp, depth) == t.json_text(pp, depth),
        <str as Serialize>::json_text(s, pp, depth) == t.json_text(pp, depth),
        valid_utf8(<&'a str as Serialize>::json_text(&s, pp, depth)),
        ({
            let src = <&'a str as Serialize>::json_text(&s, pp, depth);
            &&& string_value_outcome(src, 0, scratch_size(src)) == Ok::<(Seq<u8>, int), ParseError>(
                (encode_utf8(s@), src.len() as int),
            )
            &&& finish_outcome(src, src.len() as int) == Ok::<(), ParseError>(())
            &&& forall|w: String|
                <String as Deserialize<'static, 'static>>::read_gives(src, 0, scratch_size(src), w)
                    ==> w@ == s@
        }),
{
    law_string_value_roundtrip(t);
    law_string_text_is_utf8(encode_utf8(s@));
    let src = quoted(encode_utf8(s@));
    encode_utf8_valid_utf8(s@);
    lemma_escape_len(encode_utf8(s@));
    law_string_roundtrip(encode_utf8(s@), scratch_size(src));
}

/// The first scalar of bytes that start with a well-formed one is valid UTF-8 by itself.
proof fn lemma_first_scalar_valid(s: Seq<u8>)
    requires
        s.len() > 0,
        valid_first_scalar(s),
    ensures
        valid_utf8(s.take(length_of_first_scalar(s))),
{
    let n = length_of_first_scalar(s);
    let x = s.take(n);
    assert(x[0] == s[0]);
    assert(n >= 2 ==> x[1] == s[1]);
    assert(n >= 3 ==> x[2] == s[2]);
    assert(n >= 4 ==> x[3] == s[3]);
    assert(valid_first_scalar(x));
    assert(length_of_first_scalar(x) == n);
    assert(pop_first_scalar(x) =~= Seq::<u8>::empty());
    reveal_with_fuel(valid_utf8, 2);
}

/// The escaped form of any bytes is valid UTF-8.
proof fn lemma_escape_valid(s: Seq<u8>)
    ensures
        valid_utf8(escape_bytes(s)),
    decreases s.len(),
{
    if s.len() > 0 {
        if s[0] >= 0x80 && scalar_len(s) > 1 {
            let n = scalar_len(s);
            lemma_first_scalar_valid(s);
            lemma_escape_valid(s.skip(n));
            valid_utf8_concat(s.take(n), escape_bytes(s.skip(n)));
        } else {
            let eb = escape_byte(s[0]);
            lemma_escape_valid(s.skip(1));
            crate::grammar::lemma_ascii_valid_utf8(eb);
            valid_utf8_concat(eb, escape_bytes(s.skip(1)));
        }
    }
}

/// The serializer writes every string, whatever its bytes, as valid UTF-8.
pub proof fn law_string_text_is_utf8(s: Seq<u8>)
    ensures
        valid_utf8(quoted(s)),
{
    lemma_escape_valid(s);
    crate::grammar::lemma_ascii_valid_utf8(seq![0x22u8]);
    valid_utf8_concat(seq![0x22u8], escape_bytes(s));
    valid_utf8_concat(seq![0x22u8] + escape_bytes(s), seq![0x22u8]);
}

/// Decoding a string literal from `p` adds no more bytes than are left in the source.
#[verifier::rlimit(40)]
proof fn lemma_scan_content_len(src: Seq<u8>, p: int, acc: Seq<u8>, tok: int)
    requires
        0 <= p <= src.len(),
    ensures
        scan_content(scan_str(src, p, acc, tok)).len() <= acc.len() + (src.len() - p),
        scan_str(src, p, acc, tok) matches StrScan::Fail { kind, .. } ==> kind
            != ParseErrorKind::StringBufferOverflow,
    decreases src.len() - p,
{
    if p < src.len() && src[p] != 0x22 {
        if src[p] == 0x5C {
            if p + 1 < src.len() {
                let esc = src[p + 1];
                let q = p + 2;
                if esc == 0x75 {
                    if q + 4 <= src.len() && hex4(src, q) >= 0 {
                        let h = hex4(src, q);
                        let r = q + 4;
                        if 0xD800 <= h <= 0xDBFF {
                            if !(r + 6 > src.len() || src[r] != 0x5C || src[r + 1] != 0x75) && (0xDC00
                                <= hex4(src, r + 2) <= 0xDFFF) {
                                let cp = 0x10000 + (h - 0xD800) * 1024 + (hex4(src, r + 2) - 0xDC00);
                                lemma_scan_content_len(src, r + 6, acc + encode_scalar(cp as u32), tok);
                            }
                        } else if !(0xDC00 <= h <= 0xDFFF) {
                            lemma_scan_content_len(src, r, acc + encode_scalar(h as u32), tok);
                        }
                    }
                } else if short_escape(esc) >= 0 {
                    lemma_scan_content_len(src, q, acc.push(short_escape(esc) as u8), tok);
                }
            }
        } else if src[p] >= 0x20 {
            lemma_scan_content_len(src, p + 1, acc.push(src[p]), tok);
        }
    }
}

/// A decoded string is never longer than the source it is read from, so a scratch
/// buffer as long as the source never overflows.
pub proof fn law_scratch_of_source_length_suffices(
    src: Seq<u8>,
    start: int,
    cap: nat,
    borrow_plain: bool,
)
    requires
        0 <= start < src.len(),
        src.len() <= cap,
    ensures
        string_scanned(src, start, cap, borrow_plain) matches Err(e) ==> e.kind
            != ParseErrorKind::StringBufferOverflow,
{
    lemma_scan_content_len(src, start + 1, Seq::empty(), start);
}

/// The decimal digits of a number: digits only, no leading zero, worth the number.
pub(crate) proof fn lemma_decimal(n: nat)
    ensures
        decimal(n).len() >= 1,
        all_digits(decimal(n)),
        n > 0 ==> decimal(n)[0] != 0x30,
        n == 0 ==> decimal(n) == seq![0x30u8],
        digits_value(decimal(n)) == n,
    decreases n,
{
    if n >= 10 {
        lemma_decimal(n / 10);
        let a = decimal(n / 10);
        let d = (48 + n % 10) as u8;
        assert(d == 48 + n % 10);
        assert(decimal(n) == a + seq![d]);
        assert((a + seq![d]).drop_last() =~= a);
        assert((a + seq![d]).last() == d);
        assert(digits_value(decimal(n)) == digits_value(a) * 10 + (d - 0x30) as nat);
        assert((n / 10) * 10 + n % 10 == n) by (nonlinear_arith);
        assert forall|i: int| 0 <= i < decimal(n).len() implies is_digit(#[trigger] decimal(n)[i]) by {
            if i < a.len() {
                assert(decimal(n)[i] == a[i]);
            }
        }
        assert(decimal(n)[0] == a[0]);
    } else {
        let x = seq![(48 + n) as u8];
        assert(x.drop_last() =~= Seq::<u8>::empty());
        assert(x.last() == 48 + n);
        assert(digits_value(x) == digits_value(x.drop_last()) * 10 + (x.last() - 0x30) as nat);
    }
}

/// A run of digits up to the end of the source ends there.
proof fn lemma_digits_to_end(src: Seq<u8>, i: int)
    requires
        0 <= i <= src.len(),
        forall|t: int| i <= t < src.len() ==> is_digit(#[trigger] src[t]),
    ensures
        digits_end(src, i) == src.len(),
    decreases src.len() - i,
{
    if i < src.len() {
        lemma_digits_to_end(src, i + 1);
    }
}

/// The text of an integer is one number token that fills it.
pub(crate) proof fn lemma_int_text_token(v: int)
    ensures
        expect_outcome(int_text(v), 0, Token::Number) == Ok::<(int, int), ParseError>(
            (0, int_text(v).len() as int),
        ),
        int_parts(int_text(v)) == Some((v < 0, (if v < 0 { -v } else { v }) as nat)),
{
    let mag = (if v < 0 { -v } else { v }) as nat;
    lemma_decimal(mag);
    let d = decimal(mag);
    let src = int_text(v);
    let i0: int = if v < 0 { 1 } else { 0 };
    assert(src.skip(i0) =~= d);
    assert forall|t: int| i0 <= t < src.len() implies is_digit(#[trigger] src[t]) by {
        assert(src[t] == d[t - i0]);
    }
    assert(src[i0] == d[0]);
    assert(!is_ws(src[0]));
    assert(skip_ws(src, 0) == 0);
    assert(!matches_at(src, 0, true_word()));
    assert(!matches_at(src, 0, false_word()));
    assert(!matches_at(src, 0, null_word()));
    if mag > 0 {
        lemma_digits_to_end(src, i0);
    }
    assert(number_end(src, 0) == Some(src.len() as int));
}

/// An integer written by the serializer reads back, as a whole document, as the same
/// integer, into any integer type that holds it.
pub proof fn law_integer_roundtrip<T: IntParse>(v: int)
    requires
        T::accepts(v < 0, (if v < 0 { -v } else { v }) as nat),
    ensures
        int_read_end::<T>(int_text(v), 0) == Ok::<int, ParseError>(int_text(v).len() as int),
        finish_outcome(int_text(v), int_text(v).len() as int) == Ok::<(), ParseError>(()),
        forall|x: T| #[trigger] int_read_gives::<T>(int_text(v), 0, x) <==> x.as_int() == v,
{
    lemma_int_text_token(v);
    let src = int_text(v);
    assert(src.subrange(0, src.len() as int) =~= src);
    assert(skip_ws(src, src.len() as int) == src.len());
}

} // verus!
