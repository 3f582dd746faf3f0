//! Laws that relate decoding and encoding.
use vstd::prelude::*;
use vstd::utf8::{encode_scalar, encode_utf8};
use crate::grammar::{
    after_int, byte_at, digit, digit_at, escape_at, exp_digits, exponent, hex4, hex_val,
    int_digits, number_at, sat_i32, str_body, string_at,
};
use crate::lex::shift;
use crate::model::{
    Json, bytes_lt, dec_int, dec_nat, digit_char, encode, encode_decimal, encode_entries_from,
    encode_items_from, encode_number, escape, escape_char, hex_digit, insert_entry, key_lt, quote,
};
use crate::grammar::{decode, elems, is_ws, key_at, members, scalar_at, value, word_at, ws_len};
use crate::read::{
    lemma_elems_unfold, lemma_members_unfold, lemma_value_scalar, lemma_value_unfold_map,
    lemma_value_unfold_seq,
};
use crate::value::{Decimal, Number};

verus! {

/// Whether the bytes at `i` spell `w`.
pub open spec fn has(s: Seq<u8>, i: int, w: Seq<u8>) -> bool {
    0 <= i && i + w.len() <= s.len() && s.subrange(i, i + w.len()) == w
}

pub proof fn lemma_has_split(s: Seq<u8>, i: int, a: Seq<u8>, b: Seq<u8>)
    requires
        has(s, i, a + b),
    ensures
        has(s, i, a),
        has(s, i + a.len(), b),
{
    let w = a + b;
    let t = s.subrange(i, i + w.len());
    assert forall|k: int| 0 <= k < a.len() implies s.subrange(i, i + a.len())[k] == a[k] by {
        assert(t[k] == w[k]);
    }
    assert(s.subrange(i, i + a.len()) =~= a);
    assert forall|k: int| 0 <= k < b.len() implies s.subrange(
        i + a.len(),
        i + a.len() + b.len(),
    )[k] == b[k] by {
        assert(t[a.len() + k] == w[a.len() + k]);
    }
    assert(s.subrange(i + a.len(), i + a.len() + b.len()) =~= b);
}

pub proof fn lemma_has_byte(s: Seq<u8>, i: int, w: Seq<u8>, k: int)
    requires
        has(s, i, w),
        0 <= k < w.len(),
    ensures
        s[i + k] == w[k],
{
    assert(s.subrange(i, i + w.len())[k] == s[i + k]);
}

pub proof fn lemma_utf8_concat(a: Seq<char>, b: Seq<char>)
    ensures
        encode_utf8(a + b) == encode_utf8(a) + encode_utf8(b),
    decreases a.len(),
{
    if a.len() == 0 {
        assert(a + b =~= b);
        assert(encode_utf8(a) =~= Seq::<u8>::empty());
        assert(Seq::<u8>::empty() + encode_utf8(b) =~= encode_utf8(b));
    } else {
        assert((a + b).drop_first() =~= a.drop_first() + b);
        assert((a + b)[0] == a[0]);
        lemma_utf8_concat(a.drop_first(), b);
        assert(encode_utf8(a + b) =~= encode_scalar(a[0] as u32) + encode_utf8(a.drop_first() + b));
        assert(encode_utf8(a) =~= encode_scalar(a[0] as u32) + encode_utf8(a.drop_first()));
    }
}

/// An ASCII character is one byte of UTF-8.
pub proof fn lemma_ascii(c: char)
    requires
        (c as u32) < 0x80,
    ensures
        encode_utf8(seq![c]) == seq![(c as u32) as u8],
{
    let u = c as u32;
    assert(u & 0x7F == u) by (bit_vector)
        requires
            u < 0x80,
    ;
    assert(seq![c].drop_first() =~= Seq::<char>::empty());
    assert(encode_utf8(seq![c]) =~= encode_scalar(u) + encode_utf8(Seq::<char>::empty()));
    assert(encode_utf8(Seq::<char>::empty()) =~= Seq::<u8>::empty());
    assert(encode_scalar(u) =~= seq![(u & 0x7F) as u8]);
    assert(encode_scalar(u) + Seq::<u8>::empty() =~= seq![(c as u32) as u8]);
}

/// The decimal digits of `n` as bytes.
pub open spec fn dec_bytes(n: nat) -> Seq<u8>
    decreases n,
{
    if n < 10 {
        seq![(n + 48) as u8]
    } else {
        dec_bytes(n / 10).push((n % 10 + 48) as u8)
    }
}

pub proof fn lemma_dec_bytes(n: nat)
    ensures
        encode_utf8(dec_nat(n)) == dec_bytes(n),
        dec_bytes(n).len() >= 1,
        forall|k: int| 0 <= k < dec_bytes(n).len() ==> 48 <= #[trigger] dec_bytes(n)[k] <= 57,
        n >= 1 ==> dec_bytes(n)[0] != 48,
        n == 0 ==> dec_bytes(n) == seq![48u8],
    decreases n,
{
    if n < 10 {
        lemma_ascii(digit_char(n));
    } else {
        lemma_dec_bytes(n / 10);
        lemma_ascii(digit_char(n % 10));
        lemma_utf8_concat(dec_nat(n / 10), seq![digit_char(n % 10)]);
        assert(dec_nat(n / 10).push(digit_char(n % 10)) =~= dec_nat(n / 10) + seq![
            digit_char(n % 10),
        ]);
        assert(dec_bytes(n / 10).push((n % 10 + 48) as u8) =~= dec_bytes(n / 10) + seq![
            (n % 10 + 48) as u8,
        ]);
    }
}

/// Reading the digits of `n` that follow its first digit accumulates `n`.
pub proof fn lemma_int_digits(s: Seq<u8>, p: int, nonneg: bool, n: nat)
    requires
        has(s, p, dec_bytes(n)),
        1 <= n <= u64::MAX,
    ensures
        int_digits(s, p + 1, nonneg, (dec_bytes(n)[0] - 48) as u64) == int_digits(
            s,
            p + dec_bytes(n).len(),
            nonneg,
            n as u64,
        ),
    decreases n,
{
    lemma_dec_bytes(n);
    if n >= 10 {
        let m = n / 10;
        let w = dec_bytes(m);
        lemma_dec_bytes(m);
        assert(dec_bytes(n) =~= w + seq![(n % 10 + 48) as u8]);
        lemma_has_split(s, p, w, seq![(n % 10 + 48) as u8]);
        lemma_int_digits(s, p, nonneg, m);
        assert(dec_bytes(n)[0] == w[0]);
        let q = p + w.len();
        lemma_has_byte(s, q, seq![(n % 10 + 48) as u8], 0);
        assert(digit_at(s, q));
        assert(digit(s, q) == n % 10);
        assert(m * 10 + n % 10 == n);
    }
}

/// Reading the digits of `n` that follow its first digit, in an exponent,
/// accumulates `n`.
pub proof fn lemma_exp_digits(
    s: Seq<u8>,
    p: int,
    nonneg: bool,
    sig: u64,
    start: i32,
    positive: bool,
    n: nat,
)
    requires
        has(s, p, dec_bytes(n)),
        1 <= n <= crate::grammar::exp_limit(positive),
    ensures
        exp_digits(s, p + 1, nonneg, sig, start, positive, dec_bytes(n)[0] - 48) == exp_digits(
            s,
            p + dec_bytes(n).len(),
            nonneg,
            sig,
            start,
            positive,
            n as int,
        ),
    decreases n,
{
    lemma_dec_bytes(n);
    if n >= 10 {
        let m = n / 10;
        let w = dec_bytes(m);
        lemma_dec_bytes(m);
        assert(dec_bytes(n) =~= w + seq![(n % 10 + 48) as u8]);
        lemma_has_split(s, p, w, seq![(n % 10 + 48) as u8]);
        lemma_exp_digits(s, p, nonneg, sig, start, positive, m);
        assert(dec_bytes(n)[0] == w[0]);
        let q = p + w.len();
        lemma_has_byte(s, q, seq![(n % 10 + 48) as u8], 0);
        assert(digit_at(s, q));
        assert(digit(s, q) == n % 10);
        assert(m * 10 + n % 10 == n);
    }
}

/// The bytes of an integer's decimal form.
pub open spec fn int_bytes(i: int) -> Seq<u8> {
    if i < 0 {
        seq![0x2du8] + dec_bytes((-i) as nat)
    } else {
        dec_bytes(i as nat)
    }
}

pub proof fn lemma_int_bytes(i: int)
    ensures
        encode_utf8(dec_int(i)) == int_bytes(i),
{
    if i < 0 {
        lemma_dec_bytes((-i) as nat);
        lemma_ascii('-');
        lemma_utf8_concat(seq!['-'], dec_nat((-i) as nat));
    } else {
        lemma_dec_bytes(i as nat);
    }
}

/// Whether position `i` ends a value inside a document: the end of the text
/// or a comma or closing bracket.
pub open spec fn ends_value(s: Seq<u8>, i: int) -> bool {
    i == s.len() || (0 <= i < s.len() && (s[i] == 0x2c || s[i] == 0x5d || s[i] == 0x7d))
}

/// Reading the decimal digits of `n` and what follows them.
pub proof fn lemma_read_digits(s: Seq<u8>, p: int, nonneg: bool, n: nat)
    requires
        has(s, p, dec_bytes(n)),
        n <= u64::MAX,
        !digit_at(s, p + dec_bytes(n).len()),
    ensures
        number_at(s, p, nonneg) == after_int(s, p + dec_bytes(n).len(), nonneg, n as u64),
{
    lemma_dec_bytes(n);
    lemma_has_byte(s, p, dec_bytes(n), 0);
    if n >= 1 {
        lemma_int_digits(s, p, nonneg, n);
        if dec_bytes(n).len() == 1 {
            assert(int_digits(s, p + 1, nonneg, n as u64) == after_int(s, p + 1, nonneg, n as u64));
        } else {
        }
    }
}

/// Canonical numbers: nonnegative integers are `U64`.
pub open spec fn canonical_number(n: Number) -> bool {
    match n {
        Number::I64(i) => i < 0,
        _ => true,
    }
}

/// The bytes of a decimal float's text.
pub open spec fn decimal_bytes(d: Decimal) -> Seq<u8> {
    (if d.nonnegative {
        Seq::empty()
    } else {
        seq![0x2du8]
    }) + dec_bytes(d.significand as nat) + seq![0x65u8] + int_bytes(d.exponent as int)
}

pub proof fn lemma_decimal_bytes(d: Decimal)
    ensures
        encode_utf8(encode_decimal(d)) == decimal_bytes(d),
{
    let sign: Seq<char> = if d.nonnegative {
        Seq::empty()
    } else {
        seq!['-']
    };
    lemma_dec_bytes(d.significand as nat);
    lemma_int_bytes(d.exponent as int);
    lemma_ascii('e');
    lemma_ascii('-');
    assert(encode_utf8(Seq::<char>::empty()) =~= Seq::<u8>::empty());
    lemma_utf8_concat(sign, dec_nat(d.significand as nat));
    lemma_utf8_concat(sign + dec_nat(d.significand as nat), seq!['e']);
    lemma_utf8_concat(sign + dec_nat(d.significand as nat) + seq!['e'], dec_int(d.exponent as int));
}

/// An exponent's digits read back as the exponent.
pub proof fn lemma_exponent_reads_back(s: Seq<u8>, t: int, nonneg: bool, sig: u64, x: i32)
    requires
        has(s, t, int_bytes(x as int)),
        !digit_at(s, t + int_bytes(x as int).len()),
    ensures
        exponent(s, t, nonneg, sig, 0) == Some(
            (crate::grammar::float(nonneg, sig as int, x as int), t + int_bytes(x as int).len()),
        ),
{
    if x < 0 {
        let m = (-x) as nat;
        lemma_dec_bytes(m);
        lemma_has_split(s, t, seq![0x2du8], dec_bytes(m));
        lemma_has_byte(s, t, seq![0x2du8], 0);
        lemma_has_byte(s, t + 1, dec_bytes(m), 0);
        lemma_exp_digits(s, t + 1, nonneg, sig, 0, false, m);
        assert(sat_i32(0 - m as int) == x);
    } else {
        let m = x as nat;
        lemma_dec_bytes(m);
        lemma_has_byte(s, t, dec_bytes(m), 0);
        if m >= 1 {
            lemma_exp_digits(s, t, nonneg, sig, 0, true, m);
        }
        assert(sat_i32(0 + m as int) == x);
    }
}

pub proof fn lemma_decimal_reads_back(s: Seq<u8>, p: int, d: Decimal)
    requires
        has(s, p, decimal_bytes(d)),
        ends_value(s, p + decimal_bytes(d).len()),
    ensures
        number_at(s, p + (if d.nonnegative { 0int } else { 1int }), d.nonnegative) == Some(
            (Number::Float(d), p + decimal_bytes(d).len()),
        ),
{
    let sign: Seq<u8> = if d.nonnegative {
        Seq::empty()
    } else {
        seq![0x2du8]
    };
    let sb = dec_bytes(d.significand as nat);
    let eb = int_bytes(d.exponent as int);
    lemma_dec_bytes(d.significand as nat);
    lemma_has_split(s, p, sign + sb + seq![0x65u8], eb);
    lemma_has_split(s, p, sign + sb, seq![0x65u8]);
    lemma_has_split(s, p, sign, sb);
    let q = p + sign.len();
    let r = q + sb.len();
    lemma_has_byte(s, r, seq![0x65u8], 0);
    lemma_read_digits(s, q, d.nonnegative, d.significand as nat);
    lemma_exponent_reads_back(s, r + 1, d.nonnegative, d.significand, d.exponent);
}

/// The text of a canonical number reads back as that number.
pub proof fn lemma_number_reads_back(s: Seq<u8>, p: int, n: Number)
    requires
        canonical_number(n),
        has(s, p, encode_utf8(encode_number(n))),
        ends_value(s, p + encode_utf8(encode_number(n)).len()),
    ensures
        crate::grammar::scalar_at(s, p) == Some(
            (crate::model::Json::Number(n), p + encode_utf8(encode_number(n)).len()),
        ),
{
    let b = encode_utf8(encode_number(n));
    match n {
        Number::U64(u) => {
            lemma_int_bytes(u as int);
            lemma_dec_bytes(u as nat);
            lemma_has_byte(s, p, b, 0);
            lemma_read_digits(s, p, true, u as nat);
        },
        Number::I64(i) => {
            let m = (-i) as nat;
            lemma_int_bytes(i as int);
            lemma_dec_bytes(m);
            lemma_has_byte(s, p, b, 0);
            lemma_has_split(s, p, seq![0x2du8], dec_bytes(m));
            lemma_read_digits(s, p + 1, false, m);
        },
        Number::Float(d) => {
            lemma_decimal_bytes(d);
            lemma_decimal_reads_back(s, p, d);
            lemma_has_byte(s, p, b, 0);
            lemma_dec_bytes(d.significand as nat);
            if d.nonnegative {
                assert(b[0] == dec_bytes(d.significand as nat)[0]);
            }
        },
    }
}

/// Whether a byte stands for itself inside a string literal.
pub open spec fn plain_byte(b: u8) -> bool {
    b >= 0x20 && b != 0x22 && b != 0x5c
}

/// Bytes that stand for themselves are copied through.
pub proof fn lemma_plain_bytes(s: Seq<u8>, q: int, w: Seq<u8>, acc: Seq<u8>)
    requires
        has(s, q, w),
        forall|k: int| 0 <= k < w.len() ==> plain_byte(#[trigger] w[k]),
    ensures
        str_body(s, q, acc) == shift(str_body(s, q + w.len(), acc + w), w.len() as int),
    decreases w.len(),
{
    if w.len() == 0 {
        assert(acc + w =~= acc);
        match str_body(s, q, acc) {
            Some((r, n)) => {},
            None => {},
        }
    } else {
        let rest = w.drop_first();
        lemma_has_byte(s, q, w, 0);
        assert(w =~= seq![w[0]] + rest);
        lemma_has_split(s, q, seq![w[0]], rest);
        assert forall|k: int| 0 <= k < rest.len() implies plain_byte(#[trigger] rest[k]) by {
            assert(rest[k] == w[k + 1]);
        }
        lemma_plain_bytes(s, q + 1, rest, acc.push(w[0]));
        assert(acc.push(w[0]) + rest =~= acc + w);
    }
}

proof fn lemma_high_bytes(u: u32)
    requires
        0x80 <= u <= 0x10FFFF,
    ensures
        forall|k: int|
            0 <= k < encode_scalar(u).len() ==> #[trigger] encode_scalar(u)[k] >= 0x80,
{
    let b0 = ((u >> 6) & 0x1F) as u8;
    let b1 = ((u >> 12) & 0x0F) as u8;
    let b2 = ((u >> 18) & 0x7) as u8;
    let c0 = (u & 0x3F) as u8;
    let c1 = ((u >> 6) & 0x3F) as u8;
    let c2 = ((u >> 12) & 0x3F) as u8;
    assert(0xC0u8 | b0 >= 0x80) by (bit_vector);
    assert(0xE0u8 | b1 >= 0x80) by (bit_vector);
    assert(0xF0u8 | b2 >= 0x80) by (bit_vector);
    assert(0x80u8 | c0 >= 0x80) by (bit_vector);
    assert(0x80u8 | c1 >= 0x80) by (bit_vector);
    assert(0x80u8 | c2 >= 0x80) by (bit_vector);
}

proof fn lemma_hex_digit(n: u32)
    requires
        n < 16,
    ensures
        (hex_digit(n) as u32) < 0x80,
        hex_val((hex_digit(n) as u32) as u8) == n,
{
}

/// One written character of a string reads back as its UTF-8 bytes.
#[verifier::rlimit(80)]
pub proof fn lemma_char_reads_back(s: Seq<u8>, q: int, c: char, acc: Seq<u8>)
    requires
        has(s, q, encode_utf8(escape_char(c))),
    ensures
        str_body(s, q, acc) == shift(
            str_body(
                s,
                q + encode_utf8(escape_char(c)).len(),
                acc + encode_utf8(seq![c]),
            ),
            encode_utf8(escape_char(c)).len() as int,
        ),
{
    let u = c as u32;
    let w = encode_utf8(escape_char(c));
    vstd::utf8::char_is_scalar(c);
    if c == '"' || c == '\\' || c == '\x08' || c == '\t' || c == '\n' || c == '\x0c' || c == '\r' {
        let e = escape_char(c);
        lemma_ascii(e[0]);
        lemma_ascii(e[1]);
        lemma_ascii(c);
        assert(e =~= seq![e[0]] + seq![e[1]]);
        lemma_utf8_concat(seq![e[0]], seq![e[1]]);
        lemma_has_byte(s, q, w, 0);
        lemma_has_byte(s, q, w, 1);
        assert(escape_at(s, q + 1) == Some((encode_utf8(seq![c]), 1nat)));
        match str_body(s, q + 2, acc + encode_utf8(seq![c])) {
            Some((r, n)) => {},
            None => {},
        }
    } else if u < 0x20 {
        let e = escape_char(c);
        let h1 = hex_digit(u / 16);
        let h2 = hex_digit(u % 16);
        lemma_hex_digit(u / 16);
        lemma_hex_digit(u % 16);
        assert(e =~= seq!['\\'] + seq!['u'] + seq!['0'] + seq!['0'] + seq![h1] + seq![h2]);
        lemma_ascii('\\');
        lemma_ascii('u');
        lemma_ascii('0');
        lemma_ascii(h1);
        lemma_ascii(h2);
        lemma_ascii(c);
        lemma_utf8_concat(seq!['\\'], seq!['u']);
        lemma_utf8_concat(seq!['\\'] + seq!['u'], seq!['0']);
        lemma_utf8_concat(seq!['\\'] + seq!['u'] + seq!['0'], seq!['0']);
        lemma_utf8_concat(seq!['\\'] + seq!['u'] + seq!['0'] + seq!['0'], seq![h1]);
        lemma_utf8_concat(seq!['\\'] + seq!['u'] + seq!['0'] + seq!['0'] + seq![h1], seq![h2]);
        assert(w =~= seq![0x5cu8, 0x75, 0x30, 0x30, (h1 as u32) as u8, (h2 as u32) as u8]);
        lemma_has_byte(s, q, w, 0);
        lemma_has_byte(s, q, w, 1);
        lemma_has_byte(s, q, w, 2);
        lemma_has_byte(s, q, w, 3);
        lemma_has_byte(s, q, w, 4);
        lemma_has_byte(s, q, w, 5);
        assert(hex4(s, q + 2) == Some(u));
        assert(encode_scalar(u) =~= seq![(u & 0x7F) as u8]);
        assert(escape_at(s, q + 1) == Some((encode_utf8(seq![c]), 5nat)));
        match str_body(s, q + 6, acc + encode_utf8(seq![c])) {
            Some((r, n)) => {},
            None => {},
        }
    } else {
        assert(escape_char(c) == seq![c]);
        assert(seq![c].drop_first() =~= Seq::<char>::empty());
        assert(encode_utf8(seq![c]) =~= encode_scalar(u) + encode_utf8(Seq::<char>::empty()));
        assert(encode_utf8(Seq::<char>::empty()) =~= Seq::<u8>::empty());
        assert(encode_scalar(u) + Seq::<u8>::empty() =~= encode_scalar(u));
        if u < 0x80 {
            lemma_ascii(c);
        } else {
            lemma_high_bytes(u);
        }
        lemma_plain_bytes(s, q, w, acc);
    }
}

/// The written characters of a string read back as their UTF-8 bytes.
pub proof fn lemma_chars_read_back(s: Seq<u8>, p: int, cs: Seq<char>, acc: Seq<u8>)
    requires
        has(s, p, encode_utf8(escape(cs))),
    ensures
        str_body(s, p, acc) == shift(
            str_body(s, p + encode_utf8(escape(cs)).len(), acc + encode_utf8(cs)),
            encode_utf8(escape(cs)).len() as int,
        ),
    decreases cs.len(),
{
    if cs.len() == 0 {
        assert(encode_utf8(cs) =~= Seq::<u8>::empty());
        assert(acc + encode_utf8(cs) =~= acc);
        match str_body(s, p, acc) {
            Some((r, n)) => {},
            None => {},
        }
    } else {
        let pre = cs.drop_last();
        let c = cs.last();
        assert(cs =~= pre + seq![c]);
        lemma_utf8_concat(escape(pre), escape_char(c));
        lemma_utf8_concat(pre, seq![c]);
        let w1 = encode_utf8(escape(pre));
        let w2 = encode_utf8(escape_char(c));
        lemma_has_split(s, p, w1, w2);
        lemma_chars_read_back(s, p, pre, acc);
        lemma_char_reads_back(s, p + w1.len(), c, acc + encode_utf8(pre));
        assert(acc + encode_utf8(pre) + encode_utf8(seq![c]) =~= acc + encode_utf8(cs));
        match str_body(s, p + w1.len() + w2.len(), acc + encode_utf8(cs)) {
            Some((r, n)) => {},
            None => {},
        }
    }
}

/// A string literal reads back as its characters.
pub proof fn lemma_string_reads_back(s: Seq<u8>, p: int, cs: Seq<char>)
    requires
        has(s, p, encode_utf8(quote(cs))),
    ensures
        crate::grammar::scalar_at(s, p) == Some(
            (crate::model::Json::Str(cs), p + encode_utf8(quote(cs)).len()),
        ),
{
    let w = encode_utf8(escape(cs));
    lemma_ascii('"');
    lemma_utf8_concat(seq!['"'], escape(cs));
    lemma_utf8_concat(seq!['"'] + escape(cs), seq!['"']);
    lemma_has_split(s, p, seq![0x22u8] + w, seq![0x22u8]);
    lemma_has_split(s, p, seq![0x22u8], w);
    lemma_has_byte(s, p, seq![0x22u8], 0);
    lemma_has_byte(s, p + 1 + w.len(), seq![0x22u8], 0);
    lemma_chars_read_back(s, p + 1, cs, Seq::empty());
    assert(Seq::<u8>::empty() + encode_utf8(cs) =~= encode_utf8(cs));
    vstd::utf8::encode_utf8_valid_utf8(cs);
    vstd::utf8::encode_utf8_decode_utf8(cs);
    assert(str_body(s, p + 1 + w.len(), encode_utf8(cs)) == Some((encode_utf8(cs), 1nat)));
    assert(string_at(s, p + 1) == Some((cs, (w.len() + 1) as nat)));
}

/// Documents in the form that decoding produces: nonnegative integers as
/// `U64`, object keys strictly ascending.
pub open spec fn canonical(j: Json) -> bool
    decreases j,
{
    match j {
        Json::Number(n) => canonical_number(n),
        Json::Arr(items) => forall|i: int| 0 <= i < items.len() ==> canonical(#[trigger] items[i]),
        Json::Obj(es) => (forall|a: int, b: int|
            0 <= a < b < es.len() ==> key_lt(#[trigger] es[a].0, #[trigger] es[b].0)) && forall|
            i: int,
        |
            0 <= i < es.len() ==> canonical(#[trigger] es[i].1),
        _ => true,
    }
}

/// Object keys strictly ascending.
pub open spec fn sorted_keys(es: Seq<(Seq<char>, Json)>) -> bool {
    forall|a: int, b: int| 0 <= a < b < es.len() ==> key_lt(#[trigger] es[a].0, #[trigger] es[b].0)
}

/// The bytes of a document's canonical text.
pub open spec fn text_bytes(j: Json) -> Seq<u8> {
    encode_utf8(encode(j))
}

pub proof fn lemma_bytes_lt_asym(a: Seq<u8>, b: Seq<u8>)
    requires
        bytes_lt(a, b),
    ensures
        !bytes_lt(b, a),
        a != b,
    decreases a.len(),
{
    if a.len() > 0 && b.len() > 0 && a[0] == b[0] {
        lemma_bytes_lt_asym(a.drop_first(), b.drop_first());
    }
}

/// Storing a key greater than every key present appends the entry.
pub proof fn lemma_insert_greatest(es: Seq<(Seq<char>, Json)>, k: Seq<char>, v: Json)
    requires
        forall|i: int| 0 <= i < es.len() ==> key_lt(#[trigger] es[i].0, k),
    ensures
        insert_entry(es, k, v) == es.push((k, v)),
    decreases es.len(),
{
    if es.len() > 0 {
        lemma_bytes_lt_asym(encode_utf8(es[0].0), encode_utf8(k));
        assert(es[0].0 != k);
        assert forall|i: int| 0 <= i < es.drop_first().len() implies key_lt(
            #[trigger] es.drop_first()[i].0,
            k,
        ) by {
            assert(es.drop_first()[i] == es[i + 1]);
        }
        lemma_insert_greatest(es.drop_first(), k, v);
        assert(seq![es[0]] + es.drop_first().push((k, v)) =~= es.push((k, v)));
    }
}

pub proof fn lemma_concat3(a: Seq<char>, b: Seq<char>, c: Seq<char>)
    ensures
        encode_utf8(a + b + c) == encode_utf8(a) + encode_utf8(b) + encode_utf8(c),
{
    lemma_utf8_concat(a, b);
    lemma_utf8_concat(a + b, c);
}

pub proof fn lemma_items_bytes(items: Seq<Json>, k: int)
    requires
        0 <= k < items.len(),
    ensures
        encode_utf8(encode_items_from(items, k)) == seq![0x2cu8] + text_bytes(items[k])
            + encode_utf8(encode_items_from(items, k + 1)),
{
    lemma_ascii(',');
    lemma_concat3(seq![','], encode(items[k]), encode_items_from(items, k + 1));
}

pub proof fn lemma_entry_bytes(es: Seq<(Seq<char>, Json)>, k: int)
    requires
        0 <= k < es.len(),
    ensures
        encode_utf8(encode_entries_from(es, k)) == seq![0x2cu8] + encode_utf8(quote(es[k].0))
            + seq![0x3au8] + text_bytes(es[k].1) + encode_utf8(encode_entries_from(es, k + 1)),
{
    lemma_ascii(',');
    lemma_ascii(':');
    let a = seq![','];
    let b = quote(es[k].0);
    let c = seq![':'];
    let d = encode(es[k].1);
    let e = encode_entries_from(es, k + 1);
    assert(encode_entries_from(es, k) == a + b + c + d + e);
    lemma_utf8_concat(a, b);
    lemma_utf8_concat(a + b, c);
    lemma_utf8_concat(a + b + c, d);
    lemma_utf8_concat(a + b + c + d, e);
}

pub proof fn lemma_quote_first(cs: Seq<char>)
    ensures
        encode_utf8(quote(cs)).len() >= 2,
        encode_utf8(quote(cs))[0] == 0x22,
{
    lemma_ascii('"');
    lemma_concat3(seq!['"'], escape(cs), seq!['"']);
}

/// A key, as written, and its colon read back.
pub proof fn lemma_key_reads_back(s: Seq<u8>, q: int, k: Seq<char>)
    requires
        has(s, q, encode_utf8(quote(k)) + seq![0x3au8]),
    ensures
        key_at(s, q) == Some((k, (encode_utf8(quote(k)).len() + 1) as nat)),
{
    let w = encode_utf8(quote(k));
    lemma_has_split(s, q, w, seq![0x3au8]);
    lemma_string_reads_back(s, q, k);
    lemma_quote_first(k);
    lemma_has_byte(s, q, w, 0);
    lemma_has_byte(s, q + w.len(), seq![0x3au8], 0);
    assert(ws_len(s, q + w.len()) == 0);
}

/// The first byte of a document's text, and its length.
pub proof fn lemma_text_first(j: Json)
    ensures
        text_bytes(j).len() >= 1,
        !is_ws(text_bytes(j)[0]),
        text_bytes(j)[0] == 0x5b <==> j is Arr,
        text_bytes(j)[0] == 0x7b <==> j is Obj,
        text_bytes(j)[0] != 0x5d,
        text_bytes(j)[0] != 0x7d,
{
    match j {
        Json::Null => {
            lemma_word(seq!['n', 'u', 'l', 'l']);
        },
        Json::Bool(b) => {
            if b {
                lemma_word(seq!['t', 'r', 'u', 'e']);
            } else {
                lemma_word(seq!['f', 'a', 'l', 's', 'e']);
            }
        },
        Json::Number(n) => {
            match n {
                Number::U64(u) => {
                    lemma_int_bytes(u as int);
                    lemma_dec_bytes(u as nat);
                },
                Number::I64(i) => {
                    lemma_int_bytes(i as int);
                    lemma_dec_bytes((-i) as nat);
                    lemma_dec_bytes(i as nat);
                },
                Number::Float(d) => {
                    lemma_decimal_bytes(d);
                    lemma_dec_bytes(d.significand as nat);
                    if d.nonnegative {
                        assert(decimal_bytes(d)[0] == dec_bytes(d.significand as nat)[0]);
                    }
                },
            }
        },
        Json::Str(cs) => {
            lemma_quote_first(cs);
        },
        Json::Arr(items) => {
            lemma_ascii('[');
            lemma_ascii(']');
            if items.len() == 0 {
                lemma_utf8_concat(seq!['['], seq![']']);
                assert(seq!['['] + seq![']'] =~= seq!['[', ']']);
            } else {
                lemma_utf8_concat(
                    seq!['['],
                    encode(items[0]) + encode_items_from(items, 1) + seq![']'],
                );
                assert(encode(j) =~= seq!['['] + (encode(items[0]) + encode_items_from(items, 1)
                    + seq![']']));
            }
        },
        Json::Obj(es) => {
            lemma_ascii('{');
            lemma_ascii('}');
            if es.len() == 0 {
                lemma_utf8_concat(seq!['{'], seq!['}']);
                assert(seq!['{'] + seq!['}'] =~= seq!['{', '}']);
            } else {
                let rest = quote(es[0].0) + seq![':'] + encode(es[0].1) + encode_entries_from(es, 1)
                    + seq!['}'];
                lemma_utf8_concat(seq!['{'], rest);
                assert(encode(j) =~= seq!['{'] + rest);
            }
        },
    }
}

/// The bytes of an ASCII word.
pub proof fn lemma_word(w: Seq<char>)
    requires
        forall|k: int| 0 <= k < w.len() ==> (#[trigger] w[k] as u32) < 0x80,
    ensures
        encode_utf8(w).len() == w.len(),
        forall|k: int| 0 <= k < w.len() ==> #[trigger] encode_utf8(w)[k] == (w[k] as u32) as u8,
    decreases w.len(),
{
    if w.len() > 0 {
        lemma_ascii(w[0]);
        assert(w =~= seq![w[0]] + w.drop_first());
        lemma_utf8_concat(seq![w[0]], w.drop_first());
        assert forall|k: int| 0 <= k < w.drop_first().len() implies (
        #[trigger] w.drop_first()[k] as u32) < 0x80 by {
            assert(w.drop_first()[k] == w[k + 1]);
        }
        lemma_word(w.drop_first());
        assert forall|k: int| 0 <= k < w.len() implies #[trigger] encode_utf8(w)[k] == (
        w[k] as u32) as u8 by {
            if k > 0 {
                assert(w.drop_first()[k - 1] == w[k]);
            }
        }
    }
}

/// The bytes of the items of an array from index `k` on, with the
/// closing bracket.
pub open spec fn items_tail(items: Seq<Json>, k: int) -> Seq<u8> {
    text_bytes(items[k]) + encode_utf8(encode_items_from(items, k + 1)) + seq![0x5du8]
}

/// The bytes of the entries of an object from index `k` on, with the
/// closing brace.
pub open spec fn entries_tail(es: Seq<(Seq<char>, Json)>, k: int) -> Seq<u8> {
    encode_utf8(quote(es[k].0)) + seq![0x3au8] + text_bytes(es[k].1) + encode_utf8(
        encode_entries_from(es, k + 1),
    ) + seq![0x7du8]
}

/// The canonical text of a canonical array reads back as the array.
pub proof fn lemma_array_reads_back(s: Seq<u8>, i: int, items: Seq<Json>)
    requires
        forall|k: int| 0 <= k < items.len() ==> canonical(#[trigger] items[k]),
        has(s, i, text_bytes(Json::Arr(items))),
    ensures
        value(s, i) == Some((Json::Arr(items), text_bytes(Json::Arr(items)).len())),
    decreases items, items.len() + 1,
{
    let j = Json::Arr(items);
    let t = text_bytes(j);
    lemma_text_first(j);
    lemma_has_byte(s, i, t, 0);
    assert(ws_len(s, i) == 0);
            lemma_value_unfold_seq(s, i);
            lemma_ascii('[');
            lemma_ascii(']');
            if items.len() == 0 {
                lemma_utf8_concat(seq!['['], seq![']']);
                assert(seq!['['] + seq![']'] =~= seq!['[', ']']);
                lemma_has_byte(s, i, t, 1);
                assert(ws_len(s, i + 1) == 0);
                assert(items =~= Seq::<Json>::empty());
            } else {
                let inner = encode(items[0]) + encode_items_from(items, 1);
                assert(encode(j) =~= seq!['['] + inner + seq![']']);
                lemma_concat3(seq!['['], inner, seq![']']);
                lemma_utf8_concat(encode(items[0]), encode_items_from(items, 1));
                let tail = items_tail(items, 0);
                assert(t =~= seq![0x5bu8] + tail);
                lemma_has_split(s, i, seq![0x5bu8], tail);
                lemma_text_first(items[0]);
                lemma_has_byte(s, i + 1, tail, 0);
                assert(ws_len(s, i + 1) == 0);
                assert(items.take(0) =~= Seq::<Json>::empty());
                lemma_elems_reads_back(s, i + 1, items, 0);
                assert(elems(s, i + 1, Seq::empty()) == Some((j, tail.len())));
                assert(t.len() == 1 + tail.len());
            }
}

/// The canonical text of a canonical object reads back as the object.
pub proof fn lemma_object_reads_back(s: Seq<u8>, i: int, es: Seq<(Seq<char>, Json)>)
    requires
        sorted_keys(es),
        forall|k: int| 0 <= k < es.len() ==> canonical(#[trigger] es[k].1),
        has(s, i, text_bytes(Json::Obj(es))),
    ensures
        value(s, i) == Some((Json::Obj(es), text_bytes(Json::Obj(es)).len())),
    decreases es, es.len() + 1,
{
    let j = Json::Obj(es);
    let t = text_bytes(j);
    lemma_text_first(j);
    lemma_has_byte(s, i, t, 0);
    assert(ws_len(s, i) == 0);
            lemma_value_unfold_map(s, i);
            lemma_ascii('{');
            lemma_ascii('}');
            if es.len() == 0 {
                lemma_utf8_concat(seq!['{'], seq!['}']);
                assert(seq!['{'] + seq!['}'] =~= seq!['{', '}']);
                lemma_has_byte(s, i, t, 1);
                assert(ws_len(s, i + 1) == 0);
                assert(es =~= Seq::<(Seq<char>, Json)>::empty());
            } else {
                let inner = quote(es[0].0) + seq![':'] + encode(es[0].1) + encode_entries_from(es, 1);
                assert(encode(j) =~= seq!['{'] + inner + seq!['}']);
                lemma_concat3(seq!['{'], inner, seq!['}']);
                lemma_ascii(':');
                lemma_utf8_concat(quote(es[0].0), seq![':']);
                lemma_utf8_concat(quote(es[0].0) + seq![':'], encode(es[0].1));
                lemma_utf8_concat(
                    quote(es[0].0) + seq![':'] + encode(es[0].1),
                    encode_entries_from(es, 1),
                );
                let tail = entries_tail(es, 0);
                assert(t =~= seq![0x7bu8] + tail);
                lemma_has_split(s, i, seq![0x7bu8], tail);
                lemma_quote_first(es[0].0);
                lemma_has_byte(s, i + 1, tail, 0);
                assert(ws_len(s, i + 1) == 0);
                assert(sorted_keys(es));
                assert(es.take(0) =~= Seq::<(Seq<char>, Json)>::empty());
                lemma_members_reads_back(s, i + 1, es, 0);
                assert(members(s, i + 1, Seq::empty()) == Some((j, tail.len())));
                assert(t.len() == 1 + tail.len());
            }
}

/// The canonical text of a canonical document reads back as the document.
pub proof fn lemma_value_reads_back(s: Seq<u8>, i: int, j: Json)
    requires
        canonical(j),
        has(s, i, text_bytes(j)),
        ends_value(s, i + text_bytes(j).len()),
    ensures
        value(s, i) == Some((j, text_bytes(j).len())),
    decreases j, 0int,
{
    let t = text_bytes(j);
    lemma_text_first(j);
    lemma_has_byte(s, i, t, 0);
    assert(ws_len(s, i) == 0);
    match j {
        Json::Arr(items) => lemma_array_reads_back(s, i, items),
        Json::Obj(es) => {
            assert(sorted_keys(es));
            lemma_object_reads_back(s, i, es);
        },
        Json::Null => {
            lemma_value_scalar(s, i);
            lemma_word(seq!['n', 'u', 'l', 'l']);
            assert(t =~= seq![0x6eu8, 0x75, 0x6c, 0x6c]);
            assert forall|k: int| 0 <= k < 4 implies s[i + k] == t[k] by {
                lemma_has_byte(s, i, t, k);
            }
            assert(s.subrange(i + 1, i + 4) =~= seq![0x75u8, 0x6c, 0x6c]);
        },
        Json::Bool(b) => {
            lemma_value_scalar(s, i);
            if b {
                lemma_word(seq!['t', 'r', 'u', 'e']);
                assert(t =~= seq![0x74u8, 0x72, 0x75, 0x65]);
                assert forall|k: int| 0 <= k < 4 implies s[i + k] == t[k] by {
                    lemma_has_byte(s, i, t, k);
                }
                assert(s.subrange(i + 1, i + 4) =~= seq![0x72u8, 0x75, 0x65]);
            } else {
                lemma_word(seq!['f', 'a', 'l', 's', 'e']);
                assert(t =~= seq![0x66u8, 0x61, 0x6c, 0x73, 0x65]);
                assert forall|k: int| 0 <= k < 5 implies s[i + k] == t[k] by {
                    lemma_has_byte(s, i, t, k);
                }
                assert(s.subrange(i + 1, i + 5) =~= seq![0x61u8, 0x6c, 0x73, 0x65]);
            }
        },
        Json::Number(n) => {
            lemma_value_scalar(s, i);
            lemma_number_reads_back(s, i, n);
        },
        Json::Str(cs) => {
            lemma_value_scalar(s, i);
            lemma_string_reads_back(s, i, cs);
        },
    }
}

/// The elements of an array from index `k` on read back.
pub proof fn lemma_elems_reads_back(s: Seq<u8>, q: int, items: Seq<Json>, k: int)
    requires
        0 <= k < items.len(),
        forall|i: int| 0 <= i < items.len() ==> canonical(#[trigger] items[i]),
        has(s, q, items_tail(items, k)),
    ensures
        elems(s, q, items.take(k)) == Some((Json::Arr(items), items_tail(items, k).len())),
    decreases items, items.len() - k,
{
    let t = text_bytes(items[k]);
    let r = encode_utf8(encode_items_from(items, k + 1));
    assert(items_tail(items, k) =~= t + (r + seq![0x5du8]));
    lemma_has_split(s, q, t, r + seq![0x5du8]);
    let e = q + t.len();
    if k + 1 < items.len() {
        lemma_items_bytes(items, k + 1);
    } else {
        assert(r =~= Seq::<u8>::empty());
    }
    lemma_has_byte(s, e, r + seq![0x5du8], 0);
    lemma_value_reads_back(s, q, items[k]);
    lemma_elems_unfold(s, q, items.take(k));
    assert(ws_len(s, e) == 0);
    assert(items.take(k).push(items[k]) =~= items.take(k + 1));
    if k + 1 < items.len() {
        let rest = items_tail(items, k + 1);
        assert(r + seq![0x5du8] =~= seq![0x2cu8] + rest);
        lemma_text_first(items[k + 1]);
        lemma_has_split(s, e, seq![0x2cu8], rest);
        lemma_has_byte(s, e + 1, rest, 0);
        assert(ws_len(s, e + 1) == 0);
        lemma_has_split(s, e, seq![0x2cu8], rest);
        lemma_elems_reads_back(s, e + 1, items, k + 1);
    } else {
        assert(items.take(k + 1) =~= items);
    }
}

/// The entries of an object from index `k` on read back.
pub proof fn lemma_members_reads_back(s: Seq<u8>, q: int, es: Seq<(Seq<char>, Json)>, k: int)
    requires
        0 <= k < es.len(),
        sorted_keys(es),
        forall|i: int| 0 <= i < es.len() ==> canonical(#[trigger] es[i].1),
        has(s, q, entries_tail(es, k)),
    ensures
        members(s, q, es.take(k)) == Some((Json::Obj(es), entries_tail(es, k).len())),
    decreases es, es.len() - k,
{
    let kb = encode_utf8(quote(es[k].0));
    let t = text_bytes(es[k].1);
    let r = encode_utf8(encode_entries_from(es, k + 1));
    assert(entries_tail(es, k) =~= (kb + seq![0x3au8]) + (t + (r + seq![0x7du8])));
    lemma_has_split(s, q, kb + seq![0x3au8], t + (r + seq![0x7du8]));
    lemma_has_split(s, q + kb.len() + 1, t, r + seq![0x7du8]);
    lemma_key_reads_back(s, q, es[k].0);
    let vq = q + kb.len() + 1;
    let e = vq + t.len();
    if k + 1 < es.len() {
        lemma_entry_bytes(es, k + 1);
    } else {
        assert(r =~= Seq::<u8>::empty());
    }
    lemma_has_byte(s, e, r + seq![0x7du8], 0);
    assert(canonical(es[k].1));
    lemma_value_reads_back(s, vq, es[k].1);
    lemma_members_unfold(s, q, es.take(k));
    assert(ws_len(s, e) == 0);
    assert forall|i: int| 0 <= i < es.take(k).len() implies key_lt(
        #[trigger] es.take(k)[i].0,
        es[k].0,
    ) by {
        assert(es.take(k)[i] == es[i]);
    }
    lemma_insert_greatest(es.take(k), es[k].0, es[k].1);
    assert(es.take(k).push((es[k].0, es[k].1)) =~= es.take(k + 1));
    if k + 1 < es.len() {
        let rest = entries_tail(es, k + 1);
        assert(r + seq![0x7du8] =~= seq![0x2cu8] + rest);
        lemma_has_split(s, e, seq![0x2cu8], rest);
        lemma_quote_first(es[k + 1].0);
        lemma_has_byte(s, e + 1, rest, 0);
        assert(ws_len(s, e + 1) == 0);
        lemma_members_reads_back(s, e + 1, es, k + 1);
    } else {
        assert(es.take(k + 1) =~= es);
    }
}

/// Encoding a canonical document and decoding the text gives the document
/// back.
pub proof fn lemma_encode_decode(j: Json)
    requires
        canonical(j),
    ensures
        decode(text_bytes(j)) == Some(j),
{
    let s = text_bytes(j);
    assert(s.subrange(0, s.len() as int) =~= s);
    lemma_value_reads_back(s, 0, j);
    assert(ws_len(s, s.len() as int) == 0);
}

/// Idempotent encoding: for a document in canonical form, encoding it,
/// decoding the text and encoding the result writes the same text as
/// encoding it once.
pub proof fn law_idempotent_encoding(j: Json)
    requires
        canonical(j),
    ensures
        decode(text_bytes(j)) is Some,
        encode(decode(text_bytes(j))->Some_0) == encode(j),
{
    lemma_encode_decode(j);
}

pub proof fn lemma_bytes_lt_trans(a: Seq<u8>, b: Seq<u8>, c: Seq<u8>)
    requires
        bytes_lt(a, b),
        bytes_lt(b, c),
    ensures
        bytes_lt(a, c),
    decreases a.len(),
{
    if a.len() > 0 && b.len() > 0 && c.len() > 0 && a[0] == b[0] && b[0] == c[0] {
        lemma_bytes_lt_trans(a.drop_first(), b.drop_first(), c.drop_first());
    }
}

pub proof fn lemma_bytes_lt_total(a: Seq<u8>, b: Seq<u8>)
    requires
        a != b,
    ensures
        bytes_lt(a, b) || bytes_lt(b, a),
    decreases a.len(),
{
    if a.len() == 0 {
        assert(b.len() > 0) by {
            if b.len() == 0 {
                assert(a =~= b);
            }
        }
    } else if b.len() > 0 && a[0] == b[0] {
        if a.drop_first() == b.drop_first() {
            assert(a =~= seq![a[0]] + a.drop_first());
            assert(b =~= seq![b[0]] + b.drop_first());
        } else {
            lemma_bytes_lt_total(a.drop_first(), b.drop_first());
        }
    }
}

pub proof fn lemma_key_total(a: Seq<char>, b: Seq<char>)
    requires
        a != b,
    ensures
        key_lt(a, b) || key_lt(b, a),
{
    vstd::utf8::encode_utf8_decode_utf8(a);
    vstd::utf8::encode_utf8_decode_utf8(b);
    lemma_bytes_lt_total(encode_utf8(a), encode_utf8(b));
}

pub proof fn lemma_key_asym(a: Seq<char>, b: Seq<char>)
    requires
        key_lt(a, b),
    ensures
        !key_lt(b, a),
        a != b,
{
    lemma_bytes_lt_asym(encode_utf8(a), encode_utf8(b));
}

pub proof fn lemma_key_trans(a: Seq<char>, b: Seq<char>, c: Seq<char>)
    requires
        key_lt(a, b),
        key_lt(b, c),
    ensures
        key_lt(a, c),
{
    lemma_bytes_lt_trans(encode_utf8(a), encode_utf8(b), encode_utf8(c));
}

/// A key below every key present and below the stored key stays below every
/// key after storing.
pub proof fn lemma_insert_bound(es: Seq<(Seq<char>, Json)>, k: Seq<char>, v: Json, b: Seq<char>)
    requires
        forall|i: int| 0 <= i < es.len() ==> key_lt(b, #[trigger] es[i].0),
        key_lt(b, k),
    ensures
        forall|i: int|
            0 <= i < insert_entry(es, k, v).len() ==> key_lt(b, #[trigger] insert_entry(es, k, v)[i].0),
    decreases es.len(),
{
    if es.len() > 0 && es[0].0 != k && !key_lt(k, es[0].0) {
        let rest = es.drop_first();
        assert forall|i: int| 0 <= i < rest.len() implies key_lt(b, #[trigger] rest[i].0) by {
            assert(rest[i] == es[i + 1]);
        }
        lemma_insert_bound(rest, k, v, b);
        let r = seq![es[0]] + insert_entry(rest, k, v);
        assert forall|i: int| 0 <= i < r.len() implies key_lt(b, #[trigger] r[i].0) by {
            if i > 0 {
                assert(r[i] == insert_entry(rest, k, v)[i - 1]);
            }
        }
    } else if es.len() > 0 && es[0].0 == k {
        let r = seq![(k, v)] + es.drop_first();
        assert forall|i: int| 0 <= i < r.len() implies key_lt(b, #[trigger] r[i].0) by {
            if i > 0 {
                assert(r[i] == es[i]);
            }
        }
    } else if es.len() > 0 {
        let r = seq![(k, v)] + es;
        assert forall|i: int| 0 <= i < r.len() implies key_lt(b, #[trigger] r[i].0) by {
            if i > 0 {
                assert(r[i] == es[i - 1]);
            }
        }
    }
}

/// Storing an entry keeps the keys strictly ascending.
pub proof fn lemma_insert_sorted(es: Seq<(Seq<char>, Json)>, k: Seq<char>, v: Json)
    requires
        sorted_keys(es),
    ensures
        sorted_keys(insert_entry(es, k, v)),
    decreases es.len(),
{
    if es.len() == 0 {
    } else if es[0].0 == k {
        let r = seq![(k, v)] + es.drop_first();
        assert forall|a: int, b: int| 0 <= a < b < r.len() implies key_lt(
            #[trigger] r[a].0,
            #[trigger] r[b].0,
        ) by {
            assert(r[b] == es[b]);
            if a > 0 {
                assert(r[a] == es[a]);
            }
        }
    } else if key_lt(k, es[0].0) {
        let r = seq![(k, v)] + es;
        assert forall|a: int, b: int| 0 <= a < b < r.len() implies key_lt(
            #[trigger] r[a].0,
            #[trigger] r[b].0,
        ) by {
            assert(r[b] == es[b - 1]);
            if a > 0 {
                assert(r[a] == es[a - 1]);
            } else if b > 1 {
                lemma_key_trans(k, es[0].0, es[b - 1].0);
            }
        }
    } else {
        lemma_key_total(k, es[0].0);
        let rest = es.drop_first();
        assert(sorted_keys(rest)) by {
            assert forall|a: int, b: int| 0 <= a < b < rest.len() implies key_lt(
                #[trigger] rest[a].0,
                #[trigger] rest[b].0,
            ) by {
                assert(rest[a] == es[a + 1]);
                assert(rest[b] == es[b + 1]);
            }
        }
        assert forall|i: int| 0 <= i < rest.len() implies key_lt(es[0].0, #[trigger] rest[i].0) by {
            assert(rest[i] == es[i + 1]);
        }
        lemma_insert_sorted(rest, k, v);
        lemma_insert_bound(rest, k, v, es[0].0);
        let ins = insert_entry(rest, k, v);
        let r = seq![es[0]] + ins;
        assert forall|a: int, b: int| 0 <= a < b < r.len() implies key_lt(
            #[trigger] r[a].0,
            #[trigger] r[b].0,
        ) by {
            assert(r[b] == ins[b - 1]);
            if a > 0 {
                assert(r[a] == ins[a - 1]);
            }
        }
    }
}

/// Whether a number scanner's result, if any, is canonical.
pub open spec fn number_ok(r: Option<(Number, int)>) -> bool {
    r matches Some((n, e)) ==> canonical_number(n)
}

proof fn lemma_exp_digits_ok(
    s: Seq<u8>,
    i: int,
    nonneg: bool,
    sig: u64,
    start: i32,
    positive: bool,
    e: int,
)
    ensures
        number_ok(exp_digits(s, i, nonneg, sig, start, positive, e)),
    decreases crate::grammar::rem(s, i),
{
    if digit_at(s, i) && e * 10 + digit(s, i) <= crate::grammar::exp_limit(positive) {
        lemma_exp_digits_ok(s, i + 1, nonneg, sig, start, positive, e * 10 + digit(s, i));
    }
}

proof fn lemma_float_end_ok(s: Seq<u8>, i: int, nonneg: bool, sig: u64, exp: i32)
    ensures
        number_ok(crate::grammar::float_end(s, i, nonneg, sig, exp)),
{
    let j = if byte_at(s, i + 1, 0x2b) || byte_at(s, i + 1, 0x2d) {
        i + 2
    } else {
        i + 1
    };
    lemma_exp_digits_ok(s, j + 1, nonneg, sig, exp, !byte_at(s, i + 1, 0x2d), digit(s, j));
}

proof fn lemma_frac_digits_ok(s: Seq<u8>, i: int, nonneg: bool, sig: u64, exp: i32)
    ensures
        number_ok(crate::grammar::frac_digits(s, i, nonneg, sig, exp)),
    decreases crate::grammar::rem(s, i),
{
    if digit_at(s, i) {
        if sig * 10 + digit(s, i) > u64::MAX {
            lemma_float_end_ok(s, crate::grammar::skip_digits(s, i + 1), nonneg, sig, exp);
        } else {
            lemma_frac_digits_ok(
                s,
                i + 1,
                nonneg,
                (sig * 10 + digit(s, i)) as u64,
                sat_i32(exp - 1),
            );
        }
    } else {
        lemma_float_end_ok(s, i, nonneg, sig, exp);
    }
}

proof fn lemma_long_digits_ok(s: Seq<u8>, i: int, nonneg: bool, sig: u64, exp: i32)
    ensures
        number_ok(crate::grammar::long_digits(s, i, nonneg, sig, exp)),
    decreases crate::grammar::rem(s, i),
{
    if digit_at(s, i) {
        lemma_long_digits_ok(s, i + 1, nonneg, sig, sat_i32(exp + 1));
    } else if byte_at(s, i, 0x2e) {
        lemma_frac_digits_ok(s, i + 1, nonneg, sig, exp);
    } else {
        lemma_float_end_ok(s, i, nonneg, sig, exp);
    }
}

proof fn lemma_after_int_ok(s: Seq<u8>, i: int, nonneg: bool, n: u64)
    ensures
        number_ok(after_int(s, i, nonneg, n)),
{
    lemma_frac_digits_ok(s, i + 1, nonneg, n, 0);
    lemma_float_end_ok(s, i, nonneg, n, 0);
}

proof fn lemma_int_digits_ok(s: Seq<u8>, i: int, nonneg: bool, n: u64)
    ensures
        number_ok(int_digits(s, i, nonneg, n)),
    decreases crate::grammar::rem(s, i),
{
    if digit_at(s, i) {
        if n * 10 + digit(s, i) > u64::MAX {
            lemma_long_digits_ok(s, i + 1, nonneg, n, 1);
        } else {
            lemma_int_digits_ok(s, i + 1, nonneg, (n * 10 + digit(s, i)) as u64);
        }
    } else {
        lemma_after_int_ok(s, i, nonneg, n);
    }
}

/// Every number that decoding reads is canonical: an integer with an `I64`
/// is negative.
pub proof fn lemma_number_at_ok(s: Seq<u8>, i: int, nonneg: bool)
    ensures
        number_ok(number_at(s, i, nonneg)),
{
    lemma_after_int_ok(s, i + 1, nonneg, 0);
    if digit_at(s, i) {
        lemma_int_digits_ok(s, i + 1, nonneg, digit(s, i) as u64);
    }
}

pub proof fn lemma_insert_values_canonical(es: Seq<(Seq<char>, Json)>, k: Seq<char>, v: Json)
    requires
        forall|i: int| 0 <= i < es.len() ==> canonical(#[trigger] es[i].1),
        canonical(v),
    ensures
        forall|i: int|
            0 <= i < insert_entry(es, k, v).len() ==> canonical(
                #[trigger] insert_entry(es, k, v)[i].1,
            ),
    decreases es.len(),
{
    let r = insert_entry(es, k, v);
    if es.len() == 0 {
    } else if es[0].0 == k {
        assert forall|i: int| 0 <= i < r.len() implies canonical(#[trigger] r[i].1) by {
            if i > 0 {
                assert(r[i] == es[i]);
            }
        }
    } else if key_lt(k, es[0].0) {
        assert forall|i: int| 0 <= i < r.len() implies canonical(#[trigger] r[i].1) by {
            if i > 0 {
                assert(r[i] == es[i - 1]);
            }
        }
    } else {
        let rest = es.drop_first();
        assert forall|i: int| 0 <= i < rest.len() implies canonical(#[trigger] rest[i].1) by {
            assert(rest[i] == es[i + 1]);
        }
        lemma_insert_values_canonical(rest, k, v);
        assert forall|i: int| 0 <= i < r.len() implies canonical(#[trigger] r[i].1) by {
            if i > 0 {
                assert(r[i] == insert_entry(rest, k, v)[i - 1]);
            }
        }
    }
}

/// Whatever decoding reads is canonical: object keys strictly ascending,
/// and every `I64` negative.
pub proof fn lemma_value_canonical(s: Seq<u8>, i: int)
    ensures
        value(s, i) matches Some((v, n)) ==> canonical(v),
    decreases crate::grammar::rem(s, i), 1int,
{
    let p = i + ws_len(s, i);
    if byte_at(s, p, 0x5b) {
        lemma_value_unfold_seq(s, i);
        let q = p + 1 + ws_len(s, p + 1);
        if !byte_at(s, q, 0x5d) {
            lemma_elems_canonical(s, q, Seq::empty());
        }
    } else if byte_at(s, p, 0x7b) {
        lemma_value_unfold_map(s, i);
        let q = p + 1 + ws_len(s, p + 1);
        if !byte_at(s, q, 0x7d) {
            lemma_members_canonical(s, q, Seq::empty());
        }
    } else {
        lemma_value_scalar(s, i);
        lemma_number_at_ok(s, p, true);
        lemma_number_at_ok(s, p + 1, false);
    }
}

pub proof fn lemma_elems_canonical(s: Seq<u8>, i: int, acc: Seq<Json>)
    requires
        forall|k: int| 0 <= k < acc.len() ==> canonical(#[trigger] acc[k]),
    ensures
        elems(s, i, acc) matches Some((v, n)) ==> canonical(v),
    decreases crate::grammar::rem(s, i), 2int,
{
    lemma_elems_unfold(s, i, acc);
    lemma_value_canonical(s, i);
    match value(s, i) {
        Some((v, n)) => {
            let k = i + n + ws_len(s, i + n);
            let acc2 = acc.push(v);
            assert forall|m: int| 0 <= m < acc2.len() implies canonical(#[trigger] acc2[m]) by {
                if m < acc.len() {
                    assert(acc2[m] == acc[m]);
                }
            }
            if byte_at(s, k, 0x2c) {
                lemma_elems_canonical(s, k + 1, acc2);
            }
        },
        None => {},
    }
}

pub proof fn lemma_members_canonical(s: Seq<u8>, i: int, acc: Seq<(Seq<char>, Json)>)
    requires
        sorted_keys(acc),
        forall|k: int| 0 <= k < acc.len() ==> canonical(#[trigger] acc[k].1),
    ensures
        members(s, i, acc) matches Some((v, n)) ==> canonical(v),
    decreases crate::grammar::rem(s, i), 2int,
{
    lemma_members_unfold(s, i, acc);
    match key_at(s, i) {
        Some((key, kn)) => {
            lemma_value_canonical(s, i + kn);
            match value(s, i + kn) {
                Some((v, n)) => {
                    let j = i + kn + n;
                    let w = ws_len(s, j);
                    lemma_insert_sorted(acc, key, v);
                    lemma_insert_values_canonical(acc, key, v);
                    if byte_at(s, j + w, 0x2c) {
                        let w2 = ws_len(s, j + w + 1);
                        lemma_members_canonical(s, j + w + 1 + w2, insert_entry(acc, key, v));
                    }
                },
                None => {},
            }
        },
        None => {},
    }
}

/// Round trip: a document decoded from a text, encoded and decoded again,
/// is the document decoded at first.
pub proof fn law_round_trip(t: Seq<u8>)
    requires
        decode(t) is Some,
    ensures
        decode(text_bytes(decode(t)->Some_0)) == decode(t),
{
    lemma_value_canonical(t, 0);
    lemma_encode_decode(decode(t)->Some_0);
}

} // verus!
