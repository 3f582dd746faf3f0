//! The mathematical model of JSON documents and of their canonical text.
use vstd::prelude::*;
use crate::value::{Decimal, Number};

verus! {

/// A JSON document as a mathematical value. Object entries are kept in the
/// order in which they are written out.
pub enum Json {
    Null,
    Bool(bool),
    Number(Number),
    Str(Seq<char>),
    Arr(Seq<Json>),
    Obj(Seq<(Seq<char>, Json)>),
}

/// Lexicographic order on byte strings; a proper prefix comes first.
pub open spec fn bytes_lt(a: Seq<u8>, b: Seq<u8>) -> bool
    decreases a.len(),
{
    if a.len() == 0 {
        b.len() > 0
    } else if b.len() == 0 {
        false
    } else if a[0] < b[0] {
        true
    } else if a[0] > b[0] {
        false
    } else {
        bytes_lt(a.drop_first(), b.drop_first())
    }
}

/// Keys are ordered by their UTF-8 encodings.
pub open spec fn key_lt(a: Seq<char>, b: Seq<char>) -> bool {
    bytes_lt(vstd::utf8::encode_utf8(a), vstd::utf8::encode_utf8(b))
}

/// The entries after storing `v` under `k`: an entry with an equal key is
/// replaced in place, otherwise the pair goes before the first greater key.
pub open spec fn insert_entry(
    es: Seq<(Seq<char>, Json)>,
    k: Seq<char>,
    v: Json,
) -> Seq<(Seq<char>, Json)>
    decreases es.len(),
{
    if es.len() == 0 {
        seq![(k, v)]
    } else if es[0].0 == k {
        seq![(k, v)] + es.drop_first()
    } else if key_lt(k, es[0].0) {
        seq![(k, v)] + es
    } else {
        seq![es[0]] + insert_entry(es.drop_first(), k, v)
    }
}

/// The value of the first entry whose key is `k`.
pub open spec fn lookup(es: Seq<(Seq<char>, Json)>, k: Seq<char>) -> Option<Json>
    decreases es.len(),
{
    if es.len() == 0 {
        None
    } else if es[0].0 == k {
        Some(es[0].1)
    } else {
        lookup(es.drop_first(), k)
    }
}

/// Storing an entry under one key leaves what is found under every other key
/// as it was: a record field, looked up by its key, does not depend on the
/// entries that carry unknown keys.
pub proof fn lemma_unknown_key_ignored(
    es: Seq<(Seq<char>, Json)>,
    other: Seq<char>,
    v: Json,
    k: Seq<char>,
)
    requires
        other != k,
    ensures
        lookup(insert_entry(es, other, v), k) == lookup(es, k),
    decreases es.len(),
{
    if es.len() == 0 {
        assert(lookup(seq![(other, v)], k) == lookup(seq![(other, v)].drop_first(), k));
    } else if es[0].0 == other {
        let r = seq![(other, v)] + es.drop_first();
        assert(r.drop_first() =~= es.drop_first());
    } else if key_lt(other, es[0].0) {
        let r = seq![(other, v)] + es;
        assert(r.drop_first() =~= es);
    } else {
        let r = seq![es[0]] + insert_entry(es.drop_first(), other, v);
        assert(r.drop_first() =~= insert_entry(es.drop_first(), other, v));
        lemma_unknown_key_ignored(es.drop_first(), other, v, k);
    }
}

/// Storing an entry under a key makes it what is found under that key: the
/// last of duplicate keys wins.
pub proof fn lemma_last_key_wins(es: Seq<(Seq<char>, Json)>, k: Seq<char>, v: Json)
    ensures
        lookup(insert_entry(es, k, v), k) == Some(v),
    decreases es.len(),
{
    if es.len() > 0 && es[0].0 != k && !key_lt(k, es[0].0) {
        let r = seq![es[0]] + insert_entry(es.drop_first(), k, v);
        assert(r.drop_first() =~= insert_entry(es.drop_first(), k, v));
        lemma_last_key_wins(es.drop_first(), k, v);
    }
}

/// The entries of an object whose members, in text order, are `ms`: each
/// member is stored in turn, as decoding does.
pub open spec fn store_all(ms: Seq<(Seq<char>, Json)>) -> Seq<(Seq<char>, Json)>
    decreases ms.len(),
{
    if ms.len() == 0 {
        Seq::empty()
    } else {
        insert_entry(store_all(ms.drop_last()), ms.last().0, ms.last().1)
    }
}

/// The value of the last member keyed `k`.
pub open spec fn last_value(ms: Seq<(Seq<char>, Json)>, k: Seq<char>) -> Option<Json>
    decreases ms.len(),
{
    if ms.len() == 0 {
        None
    } else if ms.last().0 == k {
        Some(ms.last().1)
    } else {
        last_value(ms.drop_last(), k)
    }
}

/// The value found under a key in an object is that of the last member with
/// that key.
pub proof fn lemma_store_all(ms: Seq<(Seq<char>, Json)>, k: Seq<char>)
    ensures
        lookup(store_all(ms), k) == last_value(ms, k),
    decreases ms.len(),
{
    if ms.len() > 0 {
        lemma_store_all(ms.drop_last(), k);
        if ms.last().0 == k {
            lemma_last_key_wins(store_all(ms.drop_last()), k, ms.last().1);
        } else {
            lemma_unknown_key_ignored(store_all(ms.drop_last()), ms.last().0, ms.last().1, k);
        }
    }
}

proof fn lemma_last_value_remove(ms: Seq<(Seq<char>, Json)>, i: int, k: Seq<char>)
    requires
        0 <= i < ms.len(),
        ms[i].0 != k,
    ensures
        last_value(ms.remove(i), k) == last_value(ms, k),
    decreases ms.len(),
{
    let r = ms.remove(i);
    if i == ms.len() - 1 {
        assert(r =~= ms.drop_last());
    } else {
        assert(r.last() == ms.last());
        assert(r.drop_last() =~= ms.drop_last().remove(i));
        lemma_last_value_remove(ms.drop_last(), i, k);
    }
}

/// Unknown members are ignored: taking out of an object's text a member
/// whose key is not `k` leaves what is found under `k` as it was. Taking
/// out any number of members whose keys are no field's key therefore leaves
/// every field of a record, looked up by its key, as it was.
pub proof fn law_unknown_member_ignored(ms: Seq<(Seq<char>, Json)>, i: int, k: Seq<char>)
    requires
        0 <= i < ms.len(),
        ms[i].0 != k,
    ensures
        lookup(store_all(ms.remove(i)), k) == lookup(store_all(ms), k),
{
    lemma_store_all(ms, k);
    lemma_store_all(ms.remove(i), k);
    lemma_last_value_remove(ms, i, k);
}

/// The lowercase hexadecimal digit of `n < 16`.
pub open spec fn hex_digit(n: u32) -> char {
    if n < 10 {
        ((n + 48) as u8) as char
    } else {
        ((n + 87) as u8) as char
    }
}

/// How one character of a string is written between the quotes.
pub open spec fn escape_char(c: char) -> Seq<char> {
    if c == '"' {
        seq!['\\', '"']
    } else if c == '\\' {
        seq!['\\', '\\']
    } else if c == '\x08' {
        seq!['\\', 'b']
    } else if c == '\t' {
        seq!['\\', 't']
    } else if c == '\n' {
        seq!['\\', 'n']
    } else if c == '\x0c' {
        seq!['\\', 'f']
    } else if c == '\r' {
        seq!['\\', 'r']
    } else if (c as u32) < 0x20 {
        seq!['\\', 'u', '0', '0', hex_digit((c as u32) / 16), hex_digit((c as u32) % 16)]
    } else {
        seq![c]
    }
}

pub open spec fn escape(s: Seq<char>) -> Seq<char>
    decreases s.len(),
{
    if s.len() == 0 {
        Seq::empty()
    } else {
        escape(s.drop_last()) + escape_char(s.last())
    }
}

/// A string literal: the escaped characters between double quotes.
pub open spec fn quote(s: Seq<char>) -> Seq<char> {
    seq!['"'] + escape(s) + seq!['"']
}

pub open spec fn digit_char(d: nat) -> char {
    ((d + 48) as u8) as char
}

/// Decimal digits of `n`, without leading zeros.
pub open spec fn dec_nat(n: nat) -> Seq<char>
    decreases n,
{
    if n < 10 {
        seq![digit_char(n)]
    } else {
        dec_nat(n / 10).push(digit_char(n % 10))
    }
}

/// Decimal form of an integer, with a minus sign when negative.
pub open spec fn dec_int(n: int) -> Seq<char> {
    if n < 0 {
        seq!['-'] + dec_nat((-n) as nat)
    } else {
        dec_nat(n as nat)
    }
}

/// A decimal float is written as its significand, `e`, and its exponent.
pub open spec fn encode_decimal(d: Decimal) -> Seq<char> {
    (if d.nonnegative { Seq::empty() } else { seq!['-'] }) + dec_nat(d.significand as nat)
        + seq!['e'] + dec_int(d.exponent as int)
}

pub open spec fn encode_number(n: Number) -> Seq<char> {
    match n {
        Number::U64(u) => dec_int(u as int),
        Number::I64(i) => dec_int(i as int),
        Number::Float(d) => encode_decimal(d),
    }
}

/// The canonical text of a document: no whitespace, keys in entry order.
pub open spec fn encode(j: Json) -> Seq<char>
    decreases j,
{
    match j {
        Json::Null => seq!['n', 'u', 'l', 'l'],
        Json::Bool(b) => if b {
            seq!['t', 'r', 'u', 'e']
        } else {
            seq!['f', 'a', 'l', 's', 'e']
        },
        Json::Number(n) => encode_number(n),
        Json::Str(s) => quote(s),
        Json::Arr(items) => if items.len() == 0 {
            seq!['[', ']']
        } else {
            seq!['['] + encode(items[0]) + encode_items_from(items, 1) + seq![']']
        },
        Json::Obj(es) => if es.len() == 0 {
            seq!['{', '}']
        } else {
            seq!['{'] + quote(es[0].0) + seq![':'] + encode(es[0].1) + encode_entries_from(es, 1)
                + seq!['}']
        },
    }
}

/// The items from index `i` on, each preceded by a comma.
pub open spec fn encode_items_from(items: Seq<Json>, i: int) -> Seq<char>
    decreases items, items.len() - i,
{
    if 0 <= i < items.len() {
        seq![','] + encode(items[i]) + encode_items_from(items, i + 1)
    } else {
        Seq::empty()
    }
}

/// The entries from index `i` on, each preceded by a comma.
pub open spec fn encode_entries_from(es: Seq<(Seq<char>, Json)>, i: int) -> Seq<char>
    decreases es, es.len() - i,
{
    if 0 <= i < es.len() {
        seq![','] + quote(es[i].0) + seq![':'] + encode(es[i].1) + encode_entries_from(es, i + 1)
    } else {
        Seq::empty()
    }
}

} // verus!
