//! Integer values of JSON number texts.
use vstd::prelude::*;

use crate::grammar::{all_digits, digits_value, int_parts, is_digit, signed};

verus! {

/// Integer types that a JSON number can be read into.
pub trait IntParse: Sized {
    /// The number with sign `neg` and magnitude `mag`, written with that sign, is a
    /// value of this type. An unsigned type takes no `-` sign, not even on zero.
    spec fn accepts(neg: bool, mag: nat) -> bool;

    /// The value as a mathematical integer.
    spec fn as_int(&self) -> int;

    /// Every accepted magnitude fits in `u128`.
    proof fn lemma_accepts_u128(neg: bool, mag: nat)
        ensures
            Self::accepts(neg, mag) ==> mag <= u128::MAX,
    ;

    /// The value with sign `neg` and magnitude `mag`, if this type accepts it.
    fn from_parts(neg: bool, mag: u128) -> (r: Option<Self>)
        ensures
            r is Some <==> Self::accepts(neg, mag as nat),
            r matches Some(v) ==> v.as_int() == signed(neg, mag as nat),
    ;
}

impl IntParse for i8 {
    open spec fn accepts(neg: bool, mag: nat) -> bool {
        if neg {
            mag <= 128
        } else {
            mag <= 127
        }
    }

    open spec fn as_int(&self) -> int {
        *self as int
    }

    proof fn lemma_accepts_u128(neg: bool, mag: nat) {
    }

    fn from_parts(neg: bool, mag: u128) -> (r: Option<i8>) {
        if neg {
            if mag <= 128 {
                Some((0 - mag as i16) as i8)
            } else {
                None
            }
        } else if mag <= 127 {
            Some(mag as i8)
        } else {
            None
        }
    }
}

impl IntParse for i16 {
    open spec fn accepts(neg: bool, mag: nat) -> bool {
        if neg {
            mag <= 0x8000
        } else {
            mag <= 0x7FFF
        }
    }

    open spec fn as_int(&self) -> int {
        *self as int
    }

    proof fn lemma_accepts_u128(neg: bool, mag: nat) {
    }

    fn from_parts(neg: bool, mag: u128) -> (r: Option<i16>) {
        if neg {
            if mag <= 0x8000 {
                Some((0 - mag as i32) as i16)
            } else {
                None
            }
        } else if mag <= 0x7FFF {
            Some(mag as i16)
        } else {
            None
        }
    }
}

impl IntParse for i32 {
    open spec fn accepts(neg: bool, mag: nat) -> bool {
        if neg {
            mag <= 0x8000_0000
        } else {
            mag <= 0x7FFF_FFFF
        }
    }

    open spec fn as_int(&self) -> int {
        *self as int
    }

    proof fn lemma_accepts_u128(neg: bool, mag: nat) {
    }

    fn from_parts(neg: bool, mag: u128) -> (r: Option<i32>) {
        if neg {
            if mag <= 0x8000_0000 {
                Some((0 - mag as i64) as i32)
            } else {
                None
            }
        } else if mag <= 0x7FFF_FFFF {
            Some(mag as i32)
        } else {
            None
        }
    }
}

impl IntParse for i64 {
    open spec fn accepts(neg: bool, mag: nat) -> bool {
        if neg {
            mag <= 0x8000_0000_0000_0000
        } else {
            mag <= 0x7FFF_FFFF_FFFF_FFFF
        }
    }

    open spec fn as_int(&self) -> int {
        *self as int
    }

    proof fn lemma_accepts_u128(neg: bool, mag: nat) {
    }

    fn from_parts(neg: bool, mag: u128) -> (r: Option<i64>) {
        if neg {
            if mag <= 0x8000_0000_0000_0000 {
                Some((0 - mag as i128) as i64)
            } else {
                None
            }
        } else if mag <= 0x7FFF_FFFF_FFFF_FFFF {
            Some(mag as i64)
        } else {
            None
        }
    }
}

impl IntParse for i128 {
    open spec fn accepts(neg: bool, mag: nat) -> bool {
        if neg {
            mag <= 0x8000_0000_0000_0000_0000_0000_0000_0000
        } else {
            mag <= 0x7FFF_FFFF_FFFF_FFFF_FFFF_FFFF_FFFF_FFFF
        }
    }

    open spec fn as_int(&self) -> int {
        *self as int
    }

    proof fn lemma_accepts_u128(neg: bool, mag: nat) {
    }

    fn from_parts(neg: bool, mag: u128) -> (r: Option<i128>) {
        if neg {
            if mag == 0x8000_0000_0000_0000_0000_0000_0000_0000 {
                Some(i128::MIN)
            } else if mag < 0x8000_0000_0000_0000_0000_0000_0000_0000 {
                Some(0 - mag as i128)
            } else {
                None
            }
        } else if mag <= 0x7FFF_FFFF_FFFF_FFFF_FFFF_FFFF_FFFF_FFFF {
            Some(mag as i128)
        } else {
            None
        }
    }
}

impl IntParse for isize {
    open spec fn accepts(neg: bool, mag: nat) -> bool {
        if neg {
            mag <= isize::MAX + 1
        } else {
            mag <= isize::MAX
        }
    }

    open spec fn as_int(&self) -> int {
        *self as int
    }

    proof fn lemma_accepts_u128(neg: bool, mag: nat) {
    }

    fn from_parts(neg: bool, mag: u128) -> (r: Option<isize>) {
        let max = isize::MAX as u128;
        if neg {
            if mag <= max + 1 {
                Some((0 - mag as i128) as isize)
            } else {
                None
            }
        } else if mag <= max {
            Some(mag as isize)
        } else {
            None
        }
    }
}

impl IntParse for u8 {
    open spec fn accepts(neg: bool, mag: nat) -> bool {
        !neg && mag <= u8::MAX
    }

    open spec fn as_int(&self) -> int {
        *self as int
    }

    proof fn lemma_accepts_u128(neg: bool, mag: nat) {
    }

    fn from_parts(neg: bool, mag: u128) -> (r: Option<u8>) {
        if !neg && mag <= 0xFF {
            Some(mag as u8)
        } else {
            None
        }
    }
}

impl IntParse for u16 {
    open spec fn accepts(neg: bool, mag: nat) -> bool {
        !neg && mag <= u16::MAX
    }

    open spec fn as_int(&self) -> int {
        *self as int
    }

    proof fn lemma_accepts_u128(neg: bool, mag: nat) {
    }

    fn from_parts(neg: bool, mag: u128) -> (r: Option<u16>) {
        if !neg && mag <= 0xFFFF {
            Some(mag as u16)
        } else {
            None
        }
    }
}

impl IntParse for u32 {
    open spec fn accepts(neg: bool, mag: nat) -> bool {
        !neg && mag <= u32::MAX
    }

    open spec fn as_int(&self) -> int {
        *self as int
    }

    proof fn lemma_accepts_u128(neg: bool, mag: nat) {
    }

    fn from_parts(neg: bool, mag: u128) -> (r: Option<u32>) {
        if !neg && mag <= 0xFFFF_FFFF {
            Some(mag as u32)
        } else {
            None
        }
    }
}

impl IntParse for u64 {
    open spec fn accepts(neg: bool, mag: nat) -> bool {
        !neg && mag <= u64::MAX
    }

    open spec fn as_int(&self) -> int {
        *self as int
    }

    proof fn lemma_accepts_u128(neg: bool, mag: nat) {
    }

    fn from_parts(neg: bool, mag: u128) -> (r: Option<u64>) {
        if !neg && mag <= 0xFFFF_FFFF_FFFF_FFFF {
            Some(mag as u64)
        } else {
            None
        }
    }
}

impl IntParse for u128 {
    open spec fn accepts(neg: bool, mag: nat) -> bool {
        !neg && mag <= u128::MAX
    }

    open spec fn as_int(&self) -> int {
        *self as int
    }

    proof fn lemma_accepts_u128(neg: bool, mag: nat) {
    }

    fn from_parts(neg: bool, mag: u128) -> (r: Option<u128>) {
        if !neg {
            Some(mag)
        } else {
            None
        }
    }
}

impl IntParse for usize {
    open spec fn accepts(neg: bool, mag: nat) -> bool {
        !neg && mag <= usize::MAX
    }

    open spec fn as_int(&self) -> int {
        *self as int
    }

    proof fn lemma_accepts_u128(neg: bool, mag: nat) {
    }

    fn from_parts(neg: bool, mag: u128) -> (r: Option<usize>) {
        if !neg && mag <= usize::MAX as u128 {
            Some(mag as usize)
        } else {
            None
        }
    }
}

/// A longer run of digits is worth at least as much as its prefix.
proof fn lemma_digits_value_prefix(d: Seq<u8>, k: int)
    requires
        0 <= k <= d.len(),
        all_digits(d),
    ensures
        digits_value(d.take(k)) <= digits_value(d),
    decreases d.len() - k,
{
    if k < d.len() {
        lemma_digits_value_prefix(d, k + 1);
        assert(d.take(k + 1).drop_last() =~= d.take(k));
    } else {
        assert(d.take(k) =~= d);
    }
}

/// The sign and magnitude of the integer text `t`, or `None` when `t` is not of the
/// form `-?[0-9]+` or its magnitude does not fit in `u128`.
pub fn parse_int_text(t: &[u8]) -> (r: Option<(bool, u128)>)
    ensures
        match int_parts(t@) {
            None => r is None,
            Some((neg, mag)) => if mag <= u128::MAX {
                r == Some((neg, mag as u128))
            } else {
                r is None
            },
        },
{
    let neg = t.len() > 0 && t[0] == 0x2D;
    let start: usize = if neg {
        1
    } else {
        0
    };
    let ghost d = if neg {
        t@.skip(1)
    } else {
        t@
    };
    if start >= t.len() {
        return None;
    }
    let mut v: u128 = 0;
    let mut i = start;
    while i < t.len()
        invariant
            start <= i <= t.len(),
            start < t.len(),
            neg == (t@.len() > 0 && t@[0] == 0x2D),
            start == (if neg { 1usize } else { 0usize }),
            d == (if neg { t@.skip(1) } else { t@ }),
            d == t@.skip(start as int),
            all_digits(d.take(i - start)),
            v == digits_value(d.take(i - start)),
        decreases t.len() - i,
    {
        let b = t[i];
        if !(0x30 <= b && b <= 0x39) {
            assert(!is_digit(d[i - start]));
            return None;
        }
        proof {
            assert(d.take(i - start + 1).drop_last() =~= d.take(i - start));
            assert(all_digits(d.take(i - start + 1)));
            assert(d[i - start] == b);
            assert(digits_value(d.take(i - start + 1)) == v * 10 + (b - 0x30));
        }
        let m = v.checked_mul(10);
        match m {
            None => {
                proof {
                    if all_digits(d) {
                        lemma_digits_value_prefix(d, i - start + 1);
                    }
                }
                return None;
            },
            Some(m) => {
                let n = m.checked_add((b - 0x30) as u128);
                match n {
                    None => {
                        proof {
                            if all_digits(d) {
                                lemma_digits_value_prefix(d, i - start + 1);
                            }
                        }
                        return None;
                    },
                    Some(n) => {
                        v = n;
                    },
                }
            },
        }
        i = i + 1;
    }
    assert(d.take(i - start) =~= d);
    Some((neg, v))
}

} // verus!
