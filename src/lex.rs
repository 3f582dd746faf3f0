//! The tokenizer: whitespace, literals, strings with their escapes, numbers.
use vstd::prelude::*;
use vstd::utf8::{decode_utf8, encode_scalar, valid_utf8};
use crate::error::{Error, Result};
use crate::grammar::{
    after_int, byte_at, digit, digit_at, escape_at, exp_digits, exp_limit, exponent, float, float_end,
    frac_digits, fraction, hex4, hex_val, int_digits, is_ws, key_at, long_digits, number_at,
    pair_scalar, sat_i32, skip_digits, str_body, string_at, value, word_at, ws_len,
};
use crate::model::Json;
use crate::value::{Decimal, Number, Value};

verus! {

/// Relies on String::from_utf8: it succeeds exactly on valid UTF-8, and the
/// string holds the characters that the bytes encode.
#[verifier::external_body]
fn string_from_utf8(bytes: Vec<u8>) -> (r: Option<String>)
    ensures
        r is Some <==> valid_utf8(bytes@),
        r is Some ==> r->Some_0@ == decode_utf8(bytes@),
{
    String::from_utf8(bytes).ok()
}

/// Shifts the count of consumed bytes in a parser's result.
pub open spec fn shift<T>(r: Option<(T, nat)>, d: int) -> Option<(T, nat)> {
    match r {
        Some((t, n)) => Some((t, (n + d) as nat)),
        None => None,
    }
}

/// The UTF-8 bytes of a code point that is not a surrogate.
pub fn utf8_bytes(cp: u32) -> (r: Vec<u8>)
    ensures
        r@ == encode_scalar(cp),
{
    if cp <= 0x7F {
        vec![(cp & 0x7F) as u8]
    } else if cp <= 0x7FF {
        vec![0xC0 | ((cp >> 6) & 0x1F) as u8, 0x80 | (cp & 0x3F) as u8]
    } else if cp <= 0xFFFF && !(0xD800 <= cp && cp <= 0xDFFF) {
        vec![
            0xE0 | ((cp >> 12) & 0x0F) as u8,
            0x80 | ((cp >> 6) & 0x3F) as u8,
            0x80 | (cp & 0x3F) as u8,
        ]
    } else {
        vec![
            0xF0 | ((cp >> 18) & 0x7) as u8,
            0x80 | ((cp >> 12) & 0x3F) as u8,
            0x80 | ((cp >> 6) & 0x3F) as u8,
            0x80 | (cp & 0x3F) as u8,
        ]
    }
}

fn hex_value(b: u8) -> (r: i32)
    ensures
        r == hex_val(b),
{
    if 48 <= b && b <= 57 {
        (b - 48) as i32
    } else if 97 <= b && b <= 102 {
        (b - 87) as i32
    } else if 65 <= b && b <= 70 {
        (b - 55) as i32
    } else {
        -1
    }
}

/// Whether `n * 10 + d` exceeds `u64::MAX`.
fn u64_overflows(n: u64, d: u64) -> (r: bool)
    requires
        d <= 9,
    ensures
        r == (n * 10 + d > u64::MAX),
{
    n > 1844674407370955161 || (n == 1844674407370955161 && d > 5)
}

/// Whether `n * 10 + d` exceeds the exponent limit for the sign.
fn exp_overflows(n: i64, d: i64, positive: bool) -> (r: bool)
    requires
        0 <= n <= i32::MAX + 1,
        0 <= d <= 9,
    ensures
        r == (n * 10 + d > exp_limit(positive)),
{
    let limit: i64 = if positive {
        2147483647
    } else {
        2147483648
    };
    n * 10 + d > limit
}

/// A read position in a JSON text.
pub struct Reader<'a> {
    pub input: &'a [u8],
    pub pos: usize,
}

impl<'a> Reader<'a> {
    pub open spec fn text(&self) -> Seq<u8> {
        self.input@
    }

    pub open spec fn ok(&self) -> bool {
        self.pos <= self.input@.len() <= usize::MAX
    }

    pub fn new(input: &'a [u8]) -> (r: Reader<'a>)
        ensures
            r.input@ == input@,
            r.pos == 0,
            r.ok(),
    {
        let _ = input.len();
        Reader { input, pos: 0 }
    }

    /// The byte at the read position, if any.
    pub fn peek(&self) -> (r: Option<u8>)
        requires
            self.ok(),
        ensures
            r == (if self.pos < self.text().len() {
                Some(self.text()[self.pos as int])
            } else {
                None
            }),
    {
        if self.pos < self.input.len() {
            Some(self.input[self.pos])
        } else {
            None
        }
    }

    /// Skips whitespace and returns the byte after it, if any.
    pub fn parse_whitespace(&mut self) -> (r: Option<u8>)
        requires
            old(self).ok(),
        ensures
            final(self).ok(),
            final(self).input == old(self).input,
            final(self).pos >= old(self).pos,
            final(self).pos == old(self).pos + ws_len(old(self).text(), old(self).pos as int),
            r == (if final(self).pos < final(self).text().len() {
                Some(final(self).text()[final(self).pos as int])
            } else {
                None
            }),
    {
        let ghost s = self.text();
        let ghost p0 = self.pos as int;
        while self.pos < self.input.len() && (self.input[self.pos] == 0x20 || self.input[self.pos]
            == 0x0a || self.input[self.pos] == 0x09 || self.input[self.pos] == 0x0d)
            invariant
                self.ok(),
                self.input@ == s,
                self.pos + ws_len(s, self.pos as int) == p0 + ws_len(s, p0),
            decreases self.input@.len() - self.pos,
        {
            self.pos = self.pos + 1;
        }
        self.peek()
    }

    /// Reads the bytes of `word` at the read position, failing on any other
    /// bytes, and moves past them.
    pub fn parse_ident(&mut self, word: &[u8]) -> (r: Result<()>)
        requires
            old(self).ok(),
        ensures
            final(self).ok(),
            final(self).input == old(self).input,
            final(self).pos >= old(self).pos,
            r is Ok <==> word_at(old(self).text(), old(self).pos as int, word@),
            r is Ok ==> final(self).pos == old(self).pos + word@.len(),
    {
        let ghost s = self.text();
        let p0 = self.pos;
        if word.len() > self.input.len() - p0 {
            return Err(Error);
        }
        let end = p0 + word.len();
        let mut i: usize = 0;
        while i < word.len()
            invariant
                end == p0 + word@.len(),
                self.ok(),
                self.input@ == s,
                self.pos == p0,
                i <= word@.len(),
                p0 + word@.len() <= s.len(),
                forall|k: int| 0 <= k < i ==> s[p0 + k] == word@[k],
            decreases word.len() - i,
        {
            if self.input[p0 + i] != word[i] {
                assert(s.subrange(p0 as int, p0 + word@.len())[i as int] != word@[i as int]);
                return Err(Error);
            }
            i = i + 1;
        }
        assert(s.subrange(p0 as int, p0 + word@.len()) =~= word@);
        self.pos = end;
        Ok(())
    }

    /// Four hexadecimal digits at the read position, as a number.
    pub fn decode_hex_escape(&mut self) -> (r: Result<u32>)
        requires
            old(self).ok(),
        ensures
            final(self).ok(),
            final(self).input == old(self).input,
            final(self).pos >= old(self).pos,
            match hex4(old(self).text(), old(self).pos as int) {
                Some(n) => r == Ok::<u32, Error>(n) && final(self).pos == old(self).pos + 4,
                None => r is Err,
            },
    {
        let p = self.pos;
        if self.input.len() - p < 4 {
            return Err(Error);
        }
        let h0 = hex_value(self.input[p]);
        let h1 = hex_value(self.input[p + 1]);
        let h2 = hex_value(self.input[p + 2]);
        let h3 = hex_value(self.input[p + 3]);
        if h0 < 0 || h1 < 0 || h2 < 0 || h3 < 0 {
            return Err(Error);
        }
        self.pos = p + 4;
        Ok((h0 * 4096 + h1 * 256 + h2 * 16 + h3) as u32)
    }

    /// An escape after a backslash: the bytes that it stands for.
    pub fn parse_escape(&mut self) -> (r: Result<Vec<u8>>)
        requires
            old(self).ok(),
        ensures
            final(self).ok(),
            final(self).input == old(self).input,
            final(self).pos >= old(self).pos,
            match escape_at(old(self).text(), old(self).pos as int) {
                Some((bytes, m)) => r is Ok && r->Ok_0@ == bytes && final(self).pos == old(
                    self,
                ).pos + m,
                None => r is Err,
            },
    {
        let ghost s = self.text();
        let p = self.pos;
        if p >= self.input.len() {
            return Err(Error);
        }
        let c = self.input[p];
        self.pos = p + 1;
        if c == 0x22 || c == 0x5c || c == 0x2f {
            return Ok(vec![c]);
        } else if c == 0x62 {
            return Ok(vec![0x08u8]);
        } else if c == 0x66 {
            return Ok(vec![0x0cu8]);
        } else if c == 0x6e {
            return Ok(vec![0x0au8]);
        } else if c == 0x72 {
            return Ok(vec![0x0du8]);
        } else if c == 0x74 {
            return Ok(vec![0x09u8]);
        } else if c != 0x75 {
            return Err(Error);
        }
        let n1 = self.decode_hex_escape()?;
        if 0xDC00 <= n1 && n1 <= 0xDFFF {
            return Err(Error);
        }
        if 0xD800 <= n1 && n1 <= 0xDBFF {
            match self.peek() {
                Some(b) => if b != 0x5c {
                    return Err(Error);
                },
                None => return Err(Error),
            }
            self.pos = self.pos + 1;
            match self.peek() {
                Some(b) => if b != 0x75 {
                    return Err(Error);
                },
                None => return Err(Error),
            }
            self.pos = self.pos + 1;
            let n2 = self.decode_hex_escape()?;
            if n2 < 0xDC00 || n2 > 0xDFFF {
                return Err(Error);
            }
            let cp = ((n1 - 0xD800) * 1024 + (n2 - 0xDC00)) + 0x10000;
            assert(cp == pair_scalar(n1, n2));
            return Ok(utf8_bytes(cp));
        }
        Ok(utf8_bytes(n1))
    }

    /// The body of a string literal through its closing quote: the bytes it
    /// stands for.
    pub fn parse_str_bytes(&mut self) -> (r: Result<Vec<u8>>)
        requires
            old(self).ok(),
        ensures
            final(self).ok(),
            final(self).input == old(self).input,
            final(self).pos >= old(self).pos,
            match str_body(old(self).text(), old(self).pos as int, Seq::empty()) {
                Some((bytes, n)) => r is Ok && r->Ok_0@ == bytes && final(self).pos == old(
                    self,
                ).pos + n,
                None => r is Err,
            },
    {
        let ghost s = self.text();
        let ghost p0 = self.pos as int;
        let mut buffer: Vec<u8> = Vec::new();
        loop
            invariant
                self.ok(),
                self.input == old(self).input,
                self.pos >= old(self).pos,
                self.input@ == s,
                s == old(self).text(),
                p0 == old(self).pos,
                p0 <= self.pos,
                str_body(s, p0, Seq::empty()) == shift(
                    str_body(s, self.pos as int, buffer@),
                    self.pos - p0,
                ),
            decreases s.len() - self.pos,
        {
            let p = self.pos;
            if p >= self.input.len() {
                assert(str_body(s, p as int, buffer@) is None);
                return Err(Error);
            }
            let b = self.input[p];
            if b == 0x22 {
                assert(str_body(s, p as int, buffer@) == Some((buffer@, 1nat)));
                self.pos = p + 1;
                return Ok(buffer);
            } else if b == 0x5c {
                self.pos = p + 1;
                let bytes = self.parse_escape()?;
                let mut bytes = bytes;
                buffer.append(&mut bytes);
            } else if b < 0x20 {
                return Err(Error);
            } else {
                buffer.push(b);
                self.pos = p + 1;
            }
        }
    }

    /// A string literal after its opening quote, as a `String`.
    pub fn parse_str(&mut self) -> (r: Result<String>)
        requires
            old(self).ok(),
        ensures
            final(self).ok(),
            final(self).input == old(self).input,
            final(self).pos >= old(self).pos,
            match string_at(old(self).text(), old(self).pos as int) {
                Some((t, n)) => r is Ok && r->Ok_0@ == t && final(self).pos == old(self).pos + n,
                None => r is Err,
            },
    {
        let bytes = self.parse_str_bytes()?;
        match string_from_utf8(bytes) {
            Some(t) => Ok(t),
            None => Err(Error),
        }
    }

    /// A key with its opening quote at the read position, and the colon after
    /// it.
    pub fn parse_key(&mut self) -> (r: Result<String>)
        requires
            old(self).ok(),
        ensures
            final(self).ok(),
            final(self).input == old(self).input,
            final(self).pos >= old(self).pos,
            match key_at(old(self).text(), old(self).pos as int) {
                Some((k, n)) => r is Ok && r->Ok_0@ == k && final(self).pos == old(self).pos + n,
                None => r is Err,
            },
    {
        match self.peek() {
            Some(b) => if b != 0x22 {
                return Err(Error);
            },
            None => return Err(Error),
        }
        self.pos = self.pos + 1;
        let key = self.parse_str()?;
        match self.parse_whitespace() {
            Some(b) => if b != 0x3a {
                return Err(Error);
            },
            None => return Err(Error),
        }
        self.pos = self.pos + 1;
        Ok(key)
    }

    fn is_digit_next(&self) -> (r: bool)
        requires
            self.ok(),
        ensures
            r == digit_at(self.text(), self.pos as int),
    {
        self.pos < self.input.len() && 48 <= self.input[self.pos] && self.input[self.pos] <= 57
    }

    fn is_byte_next(&self, b: u8) -> (r: bool)
        requires
            self.ok(),
        ensures
            r == byte_at(self.text(), self.pos as int, b),
    {
        self.pos < self.input.len() && self.input[self.pos] == b
    }

    /// Moves past the digits at the read position.
    fn skip_digits(&mut self)
        requires
            old(self).ok(),
        ensures
            final(self).ok(),
            final(self).input == old(self).input,
            final(self).pos >= old(self).pos,
            final(self).pos == skip_digits(old(self).text(), old(self).pos as int),
    {
        while self.is_digit_next()
            invariant
                self.ok(),
                self.input == old(self).input,
                self.pos >= old(self).pos,
                skip_digits(old(self).text(), old(self).pos as int) == skip_digits(
                    self.text(),
                    self.pos as int,
                ),
            decreases self.text().len() - self.pos,
        {
            self.pos = self.pos + 1;
        }
    }

    /// An exponent after its `e`.
    fn parse_exponent(&mut self, nonneg: bool, sig: u64, start: i32) -> (r: Result<Number>)
        requires
            old(self).ok(),
        ensures
            final(self).ok(),
            final(self).input == old(self).input,
            final(self).pos >= old(self).pos,
            match exponent(old(self).text(), old(self).pos as int, nonneg, sig, start) {
                Some((n, e)) => r == Ok::<Number, Error>(n) && final(self).pos == e,
                None => r is Err,
            },
    {
        let ghost s = self.text();
        let positive = !self.is_byte_next(0x2d);
        if self.is_byte_next(0x2b) || self.is_byte_next(0x2d) {
            self.pos = self.pos + 1;
        }
        if !self.is_digit_next() {
            return Err(Error);
        }
        let mut e: i64 = (self.input[self.pos] - 48) as i64;
        self.pos = self.pos + 1;
        loop
            invariant
                self.ok(),
                self.input == old(self).input,
                self.pos >= old(self).pos,
                s == self.text(),
                0 <= e <= exp_limit(positive),
                exponent(s, old(self).pos as int, nonneg, sig, start) == exp_digits(
                    s,
                    self.pos as int,
                    nonneg,
                    sig,
                    start,
                    positive,
                    e as int,
                ),
            decreases s.len() - self.pos,
        {
            if self.is_digit_next() {
                let d = (self.input[self.pos] - 48) as i64;
                self.pos = self.pos + 1;
                if exp_overflows(e, d, positive) {
                    if sig != 0 && positive {
                        return Err(Error);
                    }
                    self.skip_digits();
                    return Ok(
                        Number::Float(Decimal { nonnegative: nonneg, significand: 0, exponent: 0 }),
                    );
                }
                e = e * 10 + d;
            } else {
                let f: i64 = if positive {
                    start as i64 + e
                } else {
                    start as i64 - e
                };
                let fin: i32 = if f > i32::MAX as i64 {
                    i32::MAX
                } else if f < i32::MIN as i64 {
                    i32::MIN
                } else {
                    f as i32
                };
                return Ok(
                    Number::Float(Decimal { nonnegative: nonneg, significand: sig, exponent: fin }),
                );
            }
        }
    }

    /// An exponent, if one comes next; else the float read so far.
    fn parse_float_end(&mut self, nonneg: bool, sig: u64, exp: i32) -> (r: Result<Number>)
        requires
            old(self).ok(),
        ensures
            final(self).ok(),
            final(self).input == old(self).input,
            final(self).pos >= old(self).pos,
            match float_end(old(self).text(), old(self).pos as int, nonneg, sig, exp) {
                Some((n, e)) => r == Ok::<Number, Error>(n) && final(self).pos == e,
                None => r is Err,
            },
    {
        if self.is_byte_next(0x65) || self.is_byte_next(0x45) {
            self.pos = self.pos + 1;
            self.parse_exponent(nonneg, sig, exp)
        } else {
            Ok(Number::Float(Decimal { nonnegative: nonneg, significand: sig, exponent: exp }))
        }
    }

    /// A fraction after its `.`.
    fn parse_decimal(&mut self, nonneg: bool, sig0: u64, exp0: i32) -> (r: Result<Number>)
        requires
            old(self).ok(),
        ensures
            final(self).ok(),
            final(self).input == old(self).input,
            final(self).pos >= old(self).pos,
            match fraction(old(self).text(), old(self).pos as int, nonneg, sig0, exp0) {
                Some((n, e)) => r == Ok::<Number, Error>(n) && final(self).pos == e,
                None => r is Err,
            },
    {
        let ghost s = self.text();
        if !self.is_digit_next() {
            return Err(Error);
        }
        let mut sig = sig0;
        let mut exp = exp0;
        loop
            invariant
                self.ok(),
                self.input == old(self).input,
                self.pos >= old(self).pos,
                s == self.text(),
                fraction(s, old(self).pos as int, nonneg, sig0, exp0) == frac_digits(
                    s,
                    self.pos as int,
                    nonneg,
                    sig,
                    exp,
                ),
            decreases s.len() - self.pos,
        {
            if self.is_digit_next() {
                let d = (self.input[self.pos] - 48) as u64;
                self.pos = self.pos + 1;
                if u64_overflows(sig, d) {
                    self.skip_digits();
                    return self.parse_float_end(nonneg, sig, exp);
                }
                sig = sig * 10 + d;
                exp = if exp > i32::MIN {
                    exp - 1
                } else {
                    exp
                };
            } else {
                return self.parse_float_end(nonneg, sig, exp);
            }
        }
    }

    /// Integer digits past what `u64` holds.
    fn parse_long_integer(&mut self, nonneg: bool, sig: u64, exp0: i32) -> (r: Result<Number>)
        requires
            old(self).ok(),
        ensures
            final(self).ok(),
            final(self).input == old(self).input,
            final(self).pos >= old(self).pos,
            match long_digits(old(self).text(), old(self).pos as int, nonneg, sig, exp0) {
                Some((n, e)) => r == Ok::<Number, Error>(n) && final(self).pos == e,
                None => r is Err,
            },
    {
        let ghost s = self.text();
        let mut exp = exp0;
        loop
            invariant
                self.ok(),
                self.input == old(self).input,
                self.pos >= old(self).pos,
                s == self.text(),
                long_digits(s, old(self).pos as int, nonneg, sig, exp0) == long_digits(
                    s,
                    self.pos as int,
                    nonneg,
                    sig,
                    exp,
                ),
            decreases s.len() - self.pos,
        {
            if self.is_digit_next() {
                self.pos = self.pos + 1;
                exp = if exp < i32::MAX {
                    exp + 1
                } else {
                    exp
                };
            } else if self.is_byte_next(0x2e) {
                self.pos = self.pos + 1;
                return self.parse_decimal(nonneg, sig, exp);
            } else {
                return self.parse_float_end(nonneg, sig, exp);
            }
        }
    }

    /// What follows the integer digits `n` of a number.
    fn parse_number(&mut self, nonneg: bool, n: u64) -> (r: Result<Number>)
        requires
            old(self).ok(),
        ensures
            final(self).ok(),
            final(self).input == old(self).input,
            final(self).pos >= old(self).pos,
            match after_int(old(self).text(), old(self).pos as int, nonneg, n) {
                Some((num, e)) => r == Ok::<Number, Error>(num) && final(self).pos == e,
                None => r is Err,
            },
    {
        if self.is_byte_next(0x2e) {
            self.pos = self.pos + 1;
            self.parse_decimal(nonneg, n, 0)
        } else if self.is_byte_next(0x65) || self.is_byte_next(0x45) {
            self.pos = self.pos + 1;
            self.parse_exponent(nonneg, n, 0)
        } else if nonneg || n == 0 {
            Ok(Number::U64(n))
        } else if n == 0x8000_0000_0000_0000 {
            Ok(Number::I64(i64::MIN))
        } else if n < 0x8000_0000_0000_0000 {
            Ok(Number::I64(-(n as i64)))
        } else {
            Ok(Number::Float(Decimal { nonnegative: false, significand: n, exponent: 0 }))
        }
    }

    /// A number whose first digit is at the read position.
    pub fn parse_integer(&mut self, nonneg: bool) -> (r: Result<Number>)
        requires
            old(self).ok(),
        ensures
            final(self).ok(),
            final(self).input == old(self).input,
            final(self).pos >= old(self).pos,
            match number_at(old(self).text(), old(self).pos as int, nonneg) {
                Some((num, e)) => r == Ok::<Number, Error>(num) && final(self).pos == e,
                None => r is Err,
            },
    {
        let ghost s = self.text();
        if !self.is_digit_next() {
            return Err(Error);
        }
        let first = self.input[self.pos];
        self.pos = self.pos + 1;
        if first == 48 {
            if self.is_digit_next() {
                return Err(Error);
            }
            return self.parse_number(nonneg, 0);
        }
        let mut n: u64 = (first - 48) as u64;
        loop
            invariant
                self.ok(),
                self.input == old(self).input,
                self.pos >= old(self).pos,
                s == self.text(),
                number_at(s, old(self).pos as int, nonneg) == int_digits(
                    s,
                    self.pos as int,
                    nonneg,
                    n,
                ),
            decreases s.len() - self.pos,
        {
            if self.is_digit_next() {
                let d = (self.input[self.pos] - 48) as u64;
                self.pos = self.pos + 1;
                if u64_overflows(n, d) {
                    return self.parse_long_integer(nonneg, n, 1);
                }
                n = n * 10 + d;
            } else {
                return self.parse_number(nonneg, n);
            }
        }
    }
}

} // verus!
