//! The JSON text the serializer produces, as spec functions over byte sequences,
//! and the UTF-8 scalar check shared by the serializer and the parser.
use vstd::prelude::*;
use vstd::utf8::*;

verus! {

/// `n` space bytes.
pub open spec fn spaces(n: nat) -> Seq<u8> {
    Seq::new(n, |i: int| 0x20u8)
}

/// The decimal digits of `n`, most significant first, without leading zeros.
pub open spec fn decimal(n: nat) -> Seq<u8>
    decreases n,
{
    if n < 10 {
        seq![(48 + n) as u8]
    } else {
        decimal(n / 10) + seq![(48 + n % 10) as u8]
    }
}

/// The JSON text of an integer: an optional `-` followed by its decimal digits.
pub open spec fn int_text(v: int) -> Seq<u8> {
    if v < 0 {
        seq![0x2Du8] + decimal((-v) as nat)
    } else {
        decimal(v as nat)
    }
}

/// Lowercase hexadecimal digit for a value below 16.
pub open spec fn hex_digit(d: u8) -> u8 {
    if d < 10 {
        (48 + d) as u8
    } else {
        (87 + d) as u8
    }
}

/// `\u00XX` for a single byte, with lowercase hex digits.
pub open spec fn unicode_escape(b: u8) -> Seq<u8> {
    seq![0x5Cu8, 0x75u8, 0x30u8, 0x30u8, hex_digit(b / 16), hex_digit(b % 16)]
}

/// The escaped form of a single byte that does not start a multi-byte UTF-8 scalar.
///
/// `"` and `\` get a backslash; the control bytes with a short JSON escape use it
/// (`\b \t \n \f \r`); other printable ASCII passes through; every other byte
/// (other controls, DEL, and bytes that are not valid UTF-8 here) becomes `\u00XX`.
pub open spec fn escape_byte(b: u8) -> Seq<u8> {
    if b == 0x22 {
        seq![0x5Cu8, 0x22u8]
    } else if b == 0x5C {
        seq![0x5Cu8, 0x5Cu8]
    } else if b == 0x08 {
        seq![0x5Cu8, 0x62u8]
    } else if b == 0x09 {
        seq![0x5Cu8, 0x74u8]
    } else if b == 0x0A {
        seq![0x5Cu8, 0x6Eu8]
    } else if b == 0x0C {
        seq![0x5Cu8, 0x66u8]
    } else if b == 0x0D {
        seq![0x5Cu8, 0x72u8]
    } else if 0x20 <= b <= 0x7E {
        seq![b]
    } else {
        unicode_escape(b)
    }
}

/// Length of the well-formed UTF-8 scalar at the start of `s`, or 0 if there is none.
pub open spec fn scalar_len(s: Seq<u8>) -> int {
    if s.len() > 0 && valid_first_scalar(s) {
        length_of_first_scalar(s)
    } else {
        0
    }
}

/// The body of a JSON string for arbitrary bytes: well-formed multi-byte UTF-8
/// scalars pass through unchanged, every other byte is escaped by [`escape_byte`].
pub open spec fn escape_bytes(s: Seq<u8>) -> Seq<u8>
    decreases s.len(),
{
    if s.len() == 0 {
        Seq::empty()
    } else if s[0] >= 0x80 && scalar_len(s) > 1 {
        s.take(scalar_len(s)) + escape_bytes(s.skip(scalar_len(s)))
    } else {
        escape_byte(s[0]) + escape_bytes(s.skip(1))
    }
}

/// A complete JSON string literal for the given bytes.
pub open spec fn quoted(s: Seq<u8>) -> Seq<u8> {
    seq![0x22u8] + escape_bytes(s) + seq![0x22u8]
}

proof fn lemma_width2(b0: u8, b1: u8)
    by (bit_vector)
    requires
        0xC0 <= b0 <= 0xDF,
        0x80 <= b1 <= 0xBF,
    ensures
        codepoint_width_2(b0, b1) >= 0x80 <==> b0 >= 0xC2,
        codepoint_width_2(b0, b1) <= 0x7FF,
{
}

proof fn lemma_width3(b0: u8, b1: u8, b2: u8)
    by (bit_vector)
    requires
        0xE0 <= b0 <= 0xEF,
        0x80 <= b1 <= 0xBF,
        0x80 <= b2 <= 0xBF,
    ensures
        (codepoint_width_3(b0, b1, b2) >= 0x800 && !(0xD800 <= codepoint_width_3(b0, b1, b2)
            <= 0xDFFF)) <==> ((b0 == 0xE0 ==> b1 >= 0xA0) && (b0 == 0xED ==> b1 <= 0x9F)),
{
}

proof fn lemma_width4(b0: u8, b1: u8, b2: u8, b3: u8)
    by (bit_vector)
    requires
        0xF0 <= b0 <= 0xF7,
        0x80 <= b1 <= 0xBF,
        0x80 <= b2 <= 0xBF,
        0x80 <= b3 <= 0xBF,
    ensures
        (0x10000 <= codepoint_width_4(b0, b1, b2, b3) <= 0x10FFFF) <==> (b0 <= 0xF4 && (b0
            == 0xF0 ==> b1 >= 0x90) && (b0 == 0xF4 ==> b1 <= 0x8F)),
{
}

/// Length of the well-formed UTF-8 scalar starting at `bytes[i]`, or 0 if the bytes
/// there are not a well-formed scalar (bad lead byte, missing or bad continuation
/// bytes, overlong form, surrogate, or a value above U+10FFFF).
pub fn utf8_scalar_len(bytes: &[u8], i: usize) -> (n: usize)
    requires
        i < bytes@.len(),
    ensures
        n == scalar_len(bytes@.skip(i as int)),
        n <= 4,
{
    let ghost s = bytes@.skip(i as int);
    let rem = bytes.len() - i;
    let b0 = bytes[i];
    assert(s[0] == b0);
    if b0 < 0x80 {
        return 1;
    }
    if b0 < 0xC0 {
        return 0;
    }
    if b0 < 0xE0 {
        if rem < 2 {
            return 0;
        }
        let b1 = bytes[i + 1];
        assert(s[1] == b1);
        if b1 < 0x80 || b1 > 0xBF {
            return 0;
        }
        proof {
            lemma_width2(b0, b1);
        }
        if b0 < 0xC2 {
            return 0;
        }
        return 2;
    }
    if b0 < 0xF0 {
        if rem < 3 {
            return 0;
        }
        let b1 = bytes[i + 1];
        let b2 = bytes[i + 2];
        assert(s[1] == b1 && s[2] == b2);
        if b1 < 0x80 || b1 > 0xBF || b2 < 0x80 || b2 > 0xBF {
            return 0;
        }
        proof {
            lemma_width3(b0, b1, b2);
        }
        if b0 == 0xE0 && b1 < 0xA0 {
            return 0;
        }
        if b0 == 0xED && b1 > 0x9F {
            return 0;
        }
        return 3;
    }
    if b0 > 0xF7 || rem < 4 {
        return 0;
    }
    let b1 = bytes[i + 1];
    let b2 = bytes[i + 2];
    let b3 = bytes[i + 3];
    assert(s[1] == b1 && s[2] == b2 && s[3] == b3);
    if b1 < 0x80 || b1 > 0xBF || b2 < 0x80 || b2 > 0xBF || b3 < 0x80 || b3 > 0xBF {
        return 0;
    }
    proof {
        lemma_width4(b0, b1, b2, b3);
    }
    if b0 > 0xF4 || (b0 == 0xF0 && b1 < 0x90) || (b0 == 0xF4 && b1 > 0x8F) {
        return 0;
    }
    4
}

/// `10^k`.
pub open spec fn pow10(k: nat) -> nat
    decreases k,
{
    if k == 0 {
        1
    } else {
        10 * pow10((k - 1) as nat)
    }
}

/// Sign and decimal digits of a magnitude: `-` only when `neg` holds.
pub open spec fn signed_decimal(neg: bool, mag: nat) -> Seq<u8> {
    if neg {
        seq![0x2Du8] + decimal(mag)
    } else {
        decimal(mag)
    }
}

proof fn lemma_u128_digits()
    ensures
        u128::MAX < pow10(39),
{
    reveal_with_fuel(pow10, 40);
    assert(pow10(39) == 1000000000000000000000000000000000000000nat);
}

proof fn lemma_digit_step(n: nat, i: nat)
    requires
        0 < n < pow10(i),
    ensures
        i >= 1,
        n / 10 < pow10((i - 1) as nat),
{
    if i == 0 {
        assert(pow10(0) == 1);
    } else {
        let p = pow10((i - 1) as nat);
        assert(pow10(i) == 10 * p);
        assert(n / 10 < p) by (nonlinear_arith)
            requires
                n < 10 * p,
        ;
    }
}

/// Formats `-mag` (when `neg`) or `mag` into the tail of a 40-byte buffer; the text
/// is `buf[start..40]`.
pub fn format_decimal(neg: bool, mag: u128) -> (r: ([u8; 40], usize))
    ensures
        0 <= r.1 <= 39,
        r.0@.subrange(r.1 as int, 40) == signed_decimal(neg, mag as nat),
{
    let mut buf: [u8; 40] = [0u8; 40];
    let mut i: usize = 40;
    let mut n: u128 = mag;
    proof {
        lemma_u128_digits();
    }
    loop
        invariant_except_break
            2 <= i <= 40,
            n < pow10((i - 1) as nat),
            i == 40 ==> n == mag,
            i < 40 ==> n > 0 && decimal(mag as nat) == decimal(n as nat) + buf@.subrange(
                i as int,
                40,
            ),
            buf@.len() == 40,
        ensures
            1 <= i <= 39,
            decimal(mag as nat) == buf@.subrange(i as int, 40),
            buf@.len() == 40,
        decreases i,
    {
        proof {
            if n > 0 {
                lemma_digit_step(n as nat, (i - 1) as nat);
            }
            if n >= 10 {
                lemma_digit_step(n as nat, (i - 1) as nat);
                assert(pow10((i - 1) as nat) == 10 * pow10((i - 2) as nat));
                assert(n / 10 > 0);
                assert(n / 10 < pow10((i - 2) as nat));
                assert(i - 1 >= 2) by {
                    if i - 1 < 2 {
                        assert(pow10(1) == 10 * pow10(0));
                    }
                }
            }
        }
        let ghost old_buf = buf@;
        let d = (n % 10) as u8;
        i = i - 1;
        buf[i] = 48 + d;
        let ghost nn = n;
        n = n / 10;
        proof {
            assert(buf@.subrange(i as int, 40) =~= seq![(48 + d) as u8] + old_buf.subrange(
                i + 1,
                40,
            )) by {
                assert(buf@.subrange(i + 1, 40) =~= old_buf.subrange(i + 1, 40));
            }
            if i + 1 == 40 {
                assert(old_buf.subrange(40, 40) =~= Seq::<u8>::empty());
            }
            if nn >= 10 {
                assert(decimal(nn as nat) == decimal((nn / 10) as nat) + seq![(48 + nn % 10) as u8]);
            } else {
                assert(decimal(nn as nat) == seq![(48 + nn) as u8]);
            }
        }
        if n == 0 {
            break;
        }
    }
    if neg {
        i = i - 1;
        assert(i >= 0);
        let ghost old_buf = buf@;
        buf[i] = 0x2D;
        assert(buf@.subrange(i as int, 40) =~= seq![0x2Du8] + old_buf.subrange(i + 1, 40));
    }
    (buf, i)
}

/// The lowercase hex digit for `d < 16`.
pub fn hex_digit_of(d: u8) -> (h: u8)
    requires
        d < 16,
    ensures
        h == hex_digit(d),
{
    if d < 10 {
        48 + d
    } else {
        87 + d
    }
}

/// The escaped form of one byte, as `buf[..len]`.
pub fn escape_byte_into(b: u8) -> (r: ([u8; 6], usize))
    ensures
        r.1 <= 6,
        r.0@.take(r.1 as int) == escape_byte(b),
{
    let (c, n): (u8, usize) = if b == 0x22 {
        (0x22, 2)
    } else if b == 0x5C {
        (0x5C, 2)
    } else if b == 0x08 {
        (0x62, 2)
    } else if b == 0x09 {
        (0x74, 2)
    } else if b == 0x0A {
        (0x6E, 2)
    } else if b == 0x0C {
        (0x66, 2)
    } else if b == 0x0D {
        (0x72, 2)
    } else if 0x20 <= b && b <= 0x7E {
        (b, 1)
    } else {
        (0, 6)
    };
    if n == 1 {
        let buf: [u8; 6] = [b, 0, 0, 0, 0, 0];
        assert(buf@.take(1) =~= escape_byte(b));
        (buf, 1)
    } else if n == 2 {
        let buf: [u8; 6] = [0x5C, c, 0, 0, 0, 0];
        assert(buf@.take(2) =~= escape_byte(b));
        (buf, 2)
    } else {
        let buf: [u8; 6] = [0x5C, 0x75, 0x30, 0x30, hex_digit_of(b / 16), hex_digit_of(b % 16)];
        assert(buf@.take(6) =~= escape_byte(b));
        (buf, 6)
    }
}

/// A byte that is copied unchanged into a JSON string: printable ASCII other than `"` and `\`.
pub open spec fn is_plain(b: u8) -> bool {
    0x20 <= b <= 0x7E && b != 0x22 && b != 0x5C
}

/// A run of plain bytes escapes to itself.
pub proof fn lemma_escape_plain_run(s: Seq<u8>, j: int, k: int)
    requires
        0 <= j <= k <= s.len(),
        forall|t: int| j <= t < k ==> is_plain(#[trigger] s[t]),
    ensures
        escape_bytes(s.skip(j)) == s.subrange(j, k) + escape_bytes(s.skip(k)),
    decreases k - j,
{
    if j < k {
        lemma_escape_plain_run(s, j + 1, k);
        let sj = s.skip(j);
        assert(sj[0] == s[j]);
        assert(sj.skip(1) =~= s.skip(j + 1));
        assert(escape_byte(s[j]) =~= seq![s[j]]);
        assert(s.subrange(j, k) =~= seq![s[j]] + s.subrange(j + 1, k));
    } else {
        assert(s.subrange(j, k) =~= Seq::<u8>::empty());
    }
}

} // verus!
