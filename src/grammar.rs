//! What decoding a JSON text yields, stated over its bytes.
//!
//! Every parser here takes the text and a start position and returns what it
//! read with the number of bytes it consumed.
use vstd::prelude::*;
use vstd::utf8::{decode_utf8, encode_scalar, valid_utf8};
use crate::model::{Json, insert_entry};
use crate::value::{Decimal, Number};

verus! {

pub open spec fn is_ws(b: u8) -> bool {
    b == 0x20 || b == 0x0a || b == 0x09 || b == 0x0d
}

/// Bytes left from position `i` on; used as a termination measure.
pub open spec fn rem(s: Seq<u8>, i: int) -> int {
    if i <= s.len() {
        s.len() - i
    } else {
        0
    }
}

/// The number of whitespace bytes that start at `i`.
pub open spec fn ws_len(s: Seq<u8>, i: int) -> nat
    decreases rem(s, i),
{
    if 0 <= i < s.len() && is_ws(s[i]) {
        1 + ws_len(s, i + 1)
    } else {
        0
    }
}

/// Whether position `i` holds the byte `b`.
pub open spec fn byte_at(s: Seq<u8>, i: int, b: u8) -> bool {
    0 <= i < s.len() && s[i] == b
}

pub open spec fn digit_at(s: Seq<u8>, i: int) -> bool {
    0 <= i < s.len() && 48 <= s[i] <= 57
}

pub open spec fn digit(s: Seq<u8>, i: int) -> int {
    s[i] - 48
}

/// Value of a hexadecimal digit, or -1 for another byte.
pub open spec fn hex_val(b: u8) -> int {
    if 48 <= b <= 57 {
        b - 48
    } else if 97 <= b <= 102 {
        b - 87
    } else if 65 <= b <= 70 {
        b - 55
    } else {
        -1
    }
}

/// Four hexadecimal digits at `i`, read as a number.
pub open spec fn hex4(s: Seq<u8>, i: int) -> Option<u32> {
    if 0 <= i && i + 4 <= s.len() && hex_val(s[i]) >= 0 && hex_val(s[i + 1]) >= 0 && hex_val(
        s[i + 2],
    ) >= 0 && hex_val(s[i + 3]) >= 0 {
        Some(
            (hex_val(s[i]) * 4096 + hex_val(s[i + 1]) * 256 + hex_val(s[i + 2]) * 16 + hex_val(
                s[i + 3],
            )) as u32,
        )
    } else {
        None
    }
}

/// The code point of a surrogate pair.
pub open spec fn pair_scalar(high: u32, low: u32) -> u32 {
    (((high - 0xD800) * 1024) + (low - 0xDC00) + 0x10000) as u32
}

/// An escape after a backslash at `i - 1`: the bytes it stands for, and how
/// many bytes it takes from `i` on.
pub open spec fn escape_at(s: Seq<u8>, i: int) -> Option<(Seq<u8>, nat)> {
    if !(0 <= i < s.len()) {
        None
    } else {
        let c = s[i];
        if c == 0x22 || c == 0x5c || c == 0x2f {
            Some((seq![c], 1))
        } else if c == 0x62 {
            Some((seq![0x08u8], 1))
        } else if c == 0x66 {
            Some((seq![0x0cu8], 1))
        } else if c == 0x6e {
            Some((seq![0x0au8], 1))
        } else if c == 0x72 {
            Some((seq![0x0du8], 1))
        } else if c == 0x74 {
            Some((seq![0x09u8], 1))
        } else if c == 0x75 {
            match hex4(s, i + 1) {
                None => None,
                Some(n1) => if 0xDC00 <= n1 <= 0xDFFF {
                    None
                } else if 0xD800 <= n1 <= 0xDBFF {
                    if byte_at(s, i + 5, 0x5c) && byte_at(s, i + 6, 0x75) {
                        match hex4(s, i + 7) {
                            Some(n2) => if 0xDC00 <= n2 <= 0xDFFF {
                                Some((encode_scalar(pair_scalar(n1, n2)), 11))
                            } else {
                                None
                            },
                            None => None,
                        }
                    } else {
                        None
                    }
                } else {
                    Some((encode_scalar(n1), 5))
                },
            }
        } else {
            None
        }
    }
}

/// The body of a string literal from `i` through its closing quote: the
/// bytes it stands for, appended to `acc`, and the bytes consumed.
pub open spec fn str_body(s: Seq<u8>, i: int, acc: Seq<u8>) -> Option<(Seq<u8>, nat)>
    decreases rem(s, i),
{
    if !(0 <= i < s.len()) {
        None
    } else if s[i] == 0x22 {
        Some((acc, 1))
    } else if s[i] == 0x5c {
        match escape_at(s, i + 1) {
            Some((bytes, m)) => match str_body(s, i + 1 + m, acc + bytes) {
                Some((r, n)) => Some((r, 1 + m + n)),
                None => None,
            },
            None => None,
        }
    } else if s[i] < 0x20 {
        None
    } else {
        match str_body(s, i + 1, acc.push(s[i])) {
            Some((r, n)) => Some((r, 1 + n)),
            None => None,
        }
    }
}

/// A string literal whose opening quote is at `i - 1`, as characters.
pub open spec fn string_at(s: Seq<u8>, i: int) -> Option<(Seq<char>, nat)> {
    match str_body(s, i, Seq::empty()) {
        Some((bytes, n)) => if valid_utf8(bytes) {
            Some((decode_utf8(bytes), n))
        } else {
            None
        },
        None => None,
    }
}

pub open spec fn sat_i32(x: int) -> i32 {
    if x > i32::MAX {
        i32::MAX
    } else if x < i32::MIN {
        i32::MIN
    } else {
        x as i32
    }
}

pub open spec fn float(nonnegative: bool, significand: int, exponent: int) -> Number {
    Number::Float(
        Decimal { nonnegative, significand: significand as u64, exponent: exponent as i32 },
    )
}

/// Skips the digits at `i`; returns the position after them.
pub open spec fn skip_digits(s: Seq<u8>, i: int) -> int
    decreases rem(s, i),
{
    if digit_at(s, i) {
        skip_digits(s, i + 1)
    } else {
        i
    }
}

/// The largest exponent magnitude that the digits of an exponent may reach:
/// `i32::MAX`, and one more for a negative exponent, so that every `i32`
/// exponent can be written and read back.
pub open spec fn exp_limit(positive: bool) -> int {
    if positive {
        i32::MAX as int
    } else {
        i32::MAX + 1
    }
}

/// The digits of an exponent, read into `e`; past `exp_limit` the number is
/// zero, or an error when it would be infinite.
pub open spec fn exp_digits(
    s: Seq<u8>,
    i: int,
    nonneg: bool,
    sig: u64,
    start: i32,
    positive: bool,
    e: int,
) -> Option<(Number, int)>
    decreases rem(s, i),
{
    if digit_at(s, i) {
        if e * 10 + digit(s, i) > exp_limit(positive) {
            if sig != 0 && positive {
                None
            } else {
                Some((float(nonneg, 0, 0), skip_digits(s, i + 1)))
            }
        } else {
            exp_digits(s, i + 1, nonneg, sig, start, positive, e * 10 + digit(s, i))
        }
    } else {
        let fin = if positive {
            sat_i32(start + e)
        } else {
            sat_i32(start - e)
        };
        Some((float(nonneg, sig as int, fin as int), i))
    }
}

/// An exponent after the `e` at `i - 1`.
pub open spec fn exponent(s: Seq<u8>, i: int, nonneg: bool, sig: u64, start: i32) -> Option<
    (Number, int),
> {
    let positive = !byte_at(s, i, 0x2d);
    let j = if byte_at(s, i, 0x2b) || byte_at(s, i, 0x2d) {
        i + 1
    } else {
        i
    };
    if digit_at(s, j) {
        exp_digits(s, j + 1, nonneg, sig, start, positive, digit(s, j))
    } else {
        None
    }
}

/// The end of a number whose digits are read: an exponent, or nothing more.
pub open spec fn float_end(s: Seq<u8>, i: int, nonneg: bool, sig: u64, exp: i32) -> Option<
    (Number, int),
> {
    if byte_at(s, i, 0x65) || byte_at(s, i, 0x45) {
        exponent(s, i + 1, nonneg, sig, exp)
    } else {
        Some((float(nonneg, sig as int, exp as int), i))
    }
}

/// Fraction digits: each one joins the significand and lowers the exponent,
/// until the significand would overflow; then the rest are skipped.
pub open spec fn frac_digits(s: Seq<u8>, i: int, nonneg: bool, sig: u64, exp: i32) -> Option<
    (Number, int),
>
    decreases rem(s, i),
{
    if digit_at(s, i) {
        if sig * 10 + digit(s, i) > u64::MAX {
            float_end(s, skip_digits(s, i + 1), nonneg, sig, exp)
        } else {
            frac_digits(
                s,
                i + 1,
                nonneg,
                (sig * 10 + digit(s, i)) as u64,
                sat_i32(exp - 1),
                )
        }
    } else {
        float_end(s, i, nonneg, sig, exp)
    }
}

/// A fraction after the `.` at `i - 1`: at least one digit.
pub open spec fn fraction(s: Seq<u8>, i: int, nonneg: bool, sig: u64, exp: i32) -> Option<
    (Number, int),
> {
    if digit_at(s, i) {
        frac_digits(s, i, nonneg, sig, exp)
    } else {
        None
    }
}

/// Integer digits past what `u64` holds: each raises the exponent.
pub open spec fn long_digits(s: Seq<u8>, i: int, nonneg: bool, sig: u64, exp: i32) -> Option<
    (Number, int),
>
    decreases rem(s, i),
{
    if digit_at(s, i) {
        long_digits(s, i + 1, nonneg, sig, sat_i32(exp + 1))
    } else if byte_at(s, i, 0x2e) {
        fraction(s, i + 1, nonneg, sig, exp)
    } else {
        float_end(s, i, nonneg, sig, exp)
    }
}

/// What follows the integer digits: a fraction, an exponent, or the end of an
/// integer. Zero is unsigned whatever its sign; a negative integer beyond
/// `i64` becomes a float.
pub open spec fn after_int(s: Seq<u8>, i: int, nonneg: bool, n: u64) -> Option<(Number, int)> {
    if byte_at(s, i, 0x2e) {
        fraction(s, i + 1, nonneg, n, 0)
    } else if byte_at(s, i, 0x65) || byte_at(s, i, 0x45) {
        exponent(s, i + 1, nonneg, n, 0)
    } else if nonneg || n == 0 {
        Some((Number::U64(n), i))
    } else if n <= 0x8000_0000_0000_0000 {
        Some((Number::I64((-n) as i64), i))
    } else {
        Some((float(false, n as int, 0), i))
    }
}

/// Integer digits read into `n`, switching to a float when `u64` overflows.
pub open spec fn int_digits(s: Seq<u8>, i: int, nonneg: bool, n: u64) -> Option<(Number, int)>
    decreases rem(s, i),
{
    if digit_at(s, i) {
        if n * 10 + digit(s, i) > u64::MAX {
            long_digits(s, i + 1, nonneg, n, 1)
        } else {
            int_digits(s, i + 1, nonneg, (n * 10 + digit(s, i)) as u64)
        }
    } else {
        after_int(s, i, nonneg, n)
    }
}

/// A number whose first digit is at `i`, and the position after it.
pub open spec fn number_at(s: Seq<u8>, i: int, nonneg: bool) -> Option<(Number, int)> {
    if !digit_at(s, i) {
        None
    } else if s[i] == 48 {
        if digit_at(s, i + 1) {
            None
        } else {
            after_int(s, i + 1, nonneg, 0)
        }
    } else {
        int_digits(s, i + 1, nonneg, digit(s, i) as u64)
    }
}

/// Whether the bytes at `i` spell `word`.
pub open spec fn word_at(s: Seq<u8>, i: int, word: Seq<u8>) -> bool {
    0 <= i && i + word.len() <= s.len() && s.subrange(i, i + word.len()) == word
}

/// A key and its colon, starting with the opening quote at `i`.
pub open spec fn key_at(s: Seq<u8>, i: int) -> Option<(Seq<char>, nat)> {
    if byte_at(s, i, 0x22) {
        match string_at(s, i + 1) {
            Some((k, m)) => {
                let w = ws_len(s, i + 1 + m);
                if byte_at(s, i + 1 + m + w, 0x3a) {
                    Some((k, 1 + m + w + 1))
                } else {
                    None
                }
            },
            None => None,
        }
    } else {
        None
    }
}

/// A string, number or literal at `p`, and the position after it.
pub open spec fn scalar_at(s: Seq<u8>, p: int) -> Option<(Json, int)> {
    if !(0 <= p < s.len()) {
        None
    } else {
        let c = s[p];
        if c == 0x22 {
            match string_at(s, p + 1) {
                Some((t, m)) => Some((Json::Str(t), p + 1 + m)),
                None => None,
            }
        } else if 48 <= c <= 57 || c == 0x2d {
            let r = if c == 0x2d {
                number_at(s, p + 1, false)
            } else {
                number_at(s, p, true)
            };
            match r {
                Some((n, e)) => Some((Json::Number(n), e)),
                None => None,
            }
        } else if c == 0x6e {
            if word_at(s, p + 1, seq![0x75u8, 0x6c, 0x6c]) {
                Some((Json::Null, p + 4))
            } else {
                None
            }
        } else if c == 0x74 {
            if word_at(s, p + 1, seq![0x72u8, 0x75, 0x65]) {
                Some((Json::Bool(true), p + 4))
            } else {
                None
            }
        } else if c == 0x66 {
            if word_at(s, p + 1, seq![0x61u8, 0x6c, 0x73, 0x65]) {
                Some((Json::Bool(false), p + 5))
            } else {
                None
            }
        } else {
            None
        }
    }
}

/// A value after any whitespace at `i`, and the bytes consumed.
#[verifier::opaque]
pub open spec fn value(s: Seq<u8>, i: int) -> Option<(Json, nat)>
    decreases rem(s, i), 1int,
{
    let w = ws_len(s, i);
    let p = i + w;
    if byte_at(s, p, 0x5b) {
        let w2 = ws_len(s, p + 1);
        if byte_at(s, p + 1 + w2, 0x5d) {
            Some((Json::Arr(Seq::empty()), w + 1 + w2 + 1))
        } else {
            match elems(s, p + 1 + w2, Seq::empty()) {
                Some((v, m)) => Some((v, w + 1 + w2 + m)),
                None => None,
            }
        }
    } else if byte_at(s, p, 0x7b) {
        let w2 = ws_len(s, p + 1);
        if byte_at(s, p + 1 + w2, 0x7d) {
            Some((Json::Obj(Seq::empty()), w + 1 + w2 + 1))
        } else {
            match members(s, p + 1 + w2, Seq::empty()) {
                Some((v, m)) => Some((v, w + 1 + w2 + m)),
                None => None,
            }
        }
    } else {
        match scalar_at(s, p) {
            Some((v, e)) => Some((v, (e - i) as nat)),
            None => None,
        }
    }
}

/// Array elements from `i` on, after those in `acc`, through the closing
/// bracket.
pub open spec fn elems(s: Seq<u8>, i: int, acc: Seq<Json>) -> Option<(Json, nat)>
    decreases rem(s, i), 2int,
{
    match value(s, i) {
        Some((v, n)) => {
            let w = ws_len(s, i + n);
            let k = i + n + w;
            if byte_at(s, k, 0x2c) {
                match elems(s, k + 1, acc.push(v)) {
                    Some((a, m)) => Some((a, n + w + 1 + m)),
                    None => None,
                }
            } else if byte_at(s, k, 0x5d) {
                Some((Json::Arr(acc.push(v)), n + w + 1))
            } else {
                None
            }
        },
        None => None,
    }
}

/// Object members from the key at `i` on, stored into `acc`, through the
/// closing brace.
pub open spec fn members(s: Seq<u8>, i: int, acc: Seq<(Seq<char>, Json)>) -> Option<(Json, nat)>
    decreases rem(s, i), 2int,
{
    match key_at(s, i) {
        Some((key, kn)) => match value(s, i + kn) {
            Some((v, n)) => {
                let j = i + kn + n;
                let w = ws_len(s, j);
                let es = insert_entry(acc, key, v);
                if byte_at(s, j + w, 0x2c) {
                    let w2 = ws_len(s, j + w + 1);
                    match members(s, j + w + 1 + w2, es) {
                        Some((o, m)) => Some((o, kn + n + w + 1 + w2 + m)),
                        None => None,
                    }
                } else if byte_at(s, j + w, 0x7d) {
                    Some((Json::Obj(es), kn + n + w + 1))
                } else {
                    None
                }
            },
            None => None,
        },
        None => None,
    }
}

/// The decoded document, when the whole text is one value with whitespace
/// around it.
pub open spec fn decode(s: Seq<u8>) -> Option<Json> {
    match value(s, 0) {
        Some((v, n)) => if n + ws_len(s, n as int) == s.len() {
            Some(v)
        } else {
            None
        },
        None => None,
    }
}

} // verus!
