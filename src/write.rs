//! The encoder: an explicit stack of open containers, never recursion.
use vstd::prelude::*;
use crate::model::{
    Json, dec_int, encode, encode_entries_from, encode_items_from, encode_number, escape,
    escape_char, hex_digit, quote,
};
use crate::value::{
    Array, Number, Object, Value, entries_json, json_of, jsons_of, lemma_entries_json,
    lemma_jsons_of,
};

verus! {

/// Relies on String::push: the character is appended.
#[verifier::external_body]
fn push_char(out: &mut String, c: char)
    ensures
        final(out)@ == old(out)@.push(c),
{
    out.push(c)
}

/// Relies on String::push_str: the text is appended.
#[verifier::external_body]
fn push_str(out: &mut String, s: &str)
    ensures
        final(out)@ == old(out)@ + s@,
{
    out.push_str(s)
}

/// Relies on itoa::Buffer::format: the decimal digits of `n` without leading
/// zeros, after a minus sign when `n` is negative.
#[verifier::external_body]
fn format_int(n: i128) -> (r: String)
    ensures
        r@ == dec_int(n as int),
{
    itoa::Buffer::new().format(n).to_owned()
}

/// Appends one character.
pub fn push_one(out: &mut String, c: char)
    ensures
        final(out)@ == old(out)@.push(c),
{
    push_char(out, c);
}

/// Appends two characters.
pub fn push_pair(out: &mut String, a: char, b: char)
    ensures
        final(out)@ == old(out)@.push(a).push(b),
{
    push_char(out, a);
    push_char(out, b);
}

fn hex_char(n: u32) -> (r: char)
    requires
        n < 16,
    ensures
        r == hex_digit(n),
{
    if n < 10 {
        ((n + 48) as u8) as char
    } else {
        ((n + 87) as u8) as char
    }
}

fn push_escaped_char(out: &mut String, c: char)
    ensures
        final(out)@ == old(out)@ + escape_char(c),
{
    let ghost start = out@;
    if c == '"' || c == '\\' {
        push_char(out, '\\');
        push_char(out, c);
    } else if c == '\x08' {
        push_char(out, '\\');
        push_char(out, 'b');
    } else if c == '\t' {
        push_char(out, '\\');
        push_char(out, 't');
    } else if c == '\n' {
        push_char(out, '\\');
        push_char(out, 'n');
    } else if c == '\x0c' {
        push_char(out, '\\');
        push_char(out, 'f');
    } else if c == '\r' {
        push_char(out, '\\');
        push_char(out, 'r');
    } else if (c as u32) < 0x20 {
        push_char(out, '\\');
        push_char(out, 'u');
        push_char(out, '0');
        push_char(out, '0');
        push_char(out, hex_char((c as u32) / 16));
        push_char(out, hex_char((c as u32) % 16));
    } else {
        push_char(out, c);
    }
    assert(out@ =~= start + escape_char(c));
}

/// Appends `value` as a JSON string literal: quotes around it, and `"`, `\`
/// and control characters escaped.
pub fn escape_str(value: &str, out: &mut String)
    ensures
        final(out)@ == old(out)@ + quote(value@),
{
    let ghost start = out@;
    push_char(out, '"');
    let ghost mut done: Seq<char> = Seq::empty();
    for c in it: value.chars()
        invariant
            it.seq() == value@,
            done == it.seq().take(it.index() as int),
            out@ == start + seq!['"'] + escape(done),
    {
        let ghost old_done = done;
        push_escaped_char(out, c);
        proof {
            assert(it.seq().take(it.index() + 1) =~= done.push(c));
            done = done.push(c);
            assert(done.drop_last() =~= old_done);
        }
    }
    assert(done =~= value@);
    push_char(out, '"');
    assert(out@ =~= start + quote(value@));
}

/// Appends the canonical text of a number.
pub fn write_number(n: Number, out: &mut String)
    ensures
        final(out)@ == old(out)@ + encode_number(n),
{
    let ghost start = out@;
    match n {
        Number::U64(u) => {
            let t = format_int(u as i128);
            push_str(out, t.as_str());
        },
        Number::I64(i) => {
            let t = format_int(i as i128);
            push_str(out, t.as_str());
        },
        Number::Float(d) => {
            if !d.nonnegative {
                push_char(out, '-');
            }
            let t = format_int(d.significand as i128);
            push_str(out, t.as_str());
            push_char(out, 'e');
            let e = format_int(d.exponent as i128);
            push_str(out, e.as_str());
            assert(out@ =~= start + encode_number(n));
        },
    }
}

/// A container being written: its children and the index of the next one.
enum Frame<'a> {
    Items(&'a Vec<Value>, usize),
    Entries(&'a Vec<(String, Value)>, usize),
}

/// The text that remains to be written for a frame once its current child
/// is done.
spec fn frame_rest(f: Frame) -> Seq<char> {
    match f {
        Frame::Items(v, i) => encode_items_from(jsons_of(v@), i as int) + seq![']'],
        Frame::Entries(v, i) => encode_entries_from(entries_json(v@), i as int) + seq!['}'],
    }
}

spec fn frame_ok(f: Frame) -> bool {
    match f {
        Frame::Items(v, i) => i <= v@.len(),
        Frame::Entries(v, i) => i <= v@.len(),
    }
}

/// The text that remains for a whole stack of frames, innermost first.
spec fn stack_rest(st: Seq<Frame>) -> Seq<char>
    decreases st.len(),
{
    if st.len() == 0 {
        Seq::empty()
    } else {
        frame_rest(st.last()) + stack_rest(st.drop_last())
    }
}

/// Appends the text of a value tree: no whitespace, and object keys in the
/// order of its entries, which is ascending.
#[verifier::rlimit(60)]
pub fn write_value(value: &Value, out: &mut String)
    ensures
        final(out)@ == old(out)@ + encode(value@),
{
    let ghost start = out@;
    let mut stack: Vec<Frame> = Vec::new();
    let mut cur: &Value = value;
    assert(start + encode(value@) + stack_rest(stack@) =~= start + encode(value@));
    loop
        invariant
            start == old(out)@,
            forall|k: int| 0 <= k < stack@.len() ==> frame_ok(#[trigger] stack@[k]),
            out@ + encode(cur@) + stack_rest(stack@) == start + encode(value@),
        decreases start.len() + encode(value@).len() - out@.len(),
    {
        let ghost out0 = out@;
        match cur {
            Value::Null => {
                push_char(out, 'n');
                push_char(out, 'u');
                push_char(out, 'l');
                push_char(out, 'l');
            },
            Value::Bool(b) => {
                if *b {
                    push_char(out, 't');
                    push_char(out, 'r');
                    push_char(out, 'u');
                    push_char(out, 'e');
                } else {
                    push_char(out, 'f');
                    push_char(out, 'a');
                    push_char(out, 'l');
                    push_char(out, 's');
                    push_char(out, 'e');
                }
            },
            Value::Number(n) => {
                write_number(*n, out);
                proof {
                    lemma_dec_nonempty(*n);
                }
            },
            Value::String(s) => escape_str(s.as_str(), out),
            Value::Array(a) => {
                let items = a.as_vec();
                proof {
                    lemma_jsons_of(items@);
                }
                if items.len() == 0 {
                    push_char(out, '[');
                    push_char(out, ']');
                } else {
                    push_char(out, '[');
                    let ghost st0 = stack@;
                    stack.push(Frame::Items(items, 1));
                    proof {
                        assert(stack@.drop_last() =~= st0);
                        assert(out@ + encode(items@[0]@) + stack_rest(stack@) =~= out0 + encode(
                            cur@,
                        ) + stack_rest(st0));
                    }
                    cur = &items[0];
                    continue ;
                }
            },
            Value::Object(o) => {
                let es = o.as_vec();
                proof {
                    lemma_entries_json(es@);
                }
                if es.len() == 0 {
                    push_char(out, '{');
                    push_char(out, '}');
                } else {
                    push_char(out, '{');
                    escape_str(es[0].0.as_str(), out);
                    push_char(out, ':');
                    let ghost st0 = stack@;
                    stack.push(Frame::Entries(es, 1));
                    proof {
                        assert(stack@.drop_last() =~= st0);
                        assert(out@ + encode(es@[0].1@) + stack_rest(stack@) =~= out0 + encode(
                            cur@,
                        ) + stack_rest(st0));
                    }
                    cur = &es[0].1;
                    continue ;
                }
            },
        }
        assert(out@ =~= out0 + encode(cur@));
        // The current value is done: close containers until one has a next child.
        loop
            invariant_except_break
                out@ + stack_rest(stack@) == start + encode(value@),
            invariant
                start == old(out)@,
                out@.len() > out0.len(),
                forall|k: int| 0 <= k < stack@.len() ==> frame_ok(#[trigger] stack@[k]),
            ensures
                out@ + encode(cur@) + stack_rest(stack@) == start + encode(value@),
            decreases stack@.len(),
        {
            let ghost st0 = stack@;
            let ghost o1 = out@;
            match stack.pop() {
                None => {
                    assert(out@ =~= start + encode(value@));
                    return ;
                },
                Some(Frame::Items(items, i)) => {
                    proof {
                        lemma_jsons_of(items@);
                        assert(frame_ok(st0[st0.len() - 1]));
                    }
                    if i < items.len() {
                        push_char(out, ',');
                        stack.push(Frame::Items(items, i + 1));
                        proof {
                            assert(stack@.drop_last() =~= st0.drop_last());
                            assert(forall|k: int|
                                0 <= k < stack@.len() - 1 ==> stack@[k] == st0[k]);
                            assert(out@ + encode(items@[i as int]@) + stack_rest(stack@) =~= o1
                                + stack_rest(st0));
                        }
                        cur = &items[i];
                        break ;
                    } else {
                        push_char(out, ']');
                        assert(out@ + stack_rest(stack@) =~= o1 + stack_rest(st0));
                    }
                },
                Some(Frame::Entries(es, i)) => {
                    proof {
                        lemma_entries_json(es@);
                        assert(frame_ok(st0[st0.len() - 1]));
                    }
                    if i < es.len() {
                        push_char(out, ',');
                        escape_str(es[i].0.as_str(), out);
                        push_char(out, ':');
                        stack.push(Frame::Entries(es, i + 1));
                        proof {
                            assert(stack@.drop_last() =~= st0.drop_last());
                            assert(forall|k: int|
                                0 <= k < stack@.len() - 1 ==> stack@[k] == st0[k]);
                            assert(out@ + encode(es@[i as int].1@) + stack_rest(stack@) =~= o1
                                + stack_rest(st0));
                        }
                        cur = &es[i].1;
                        break ;
                    } else {
                        push_char(out, '}');
                        assert(out@ + stack_rest(stack@) =~= o1 + stack_rest(st0));
                    }
                },
            }
        }
    }
}

proof fn lemma_dec_nat_nonempty(n: nat)
    ensures
        crate::model::dec_nat(n).len() > 0,
    decreases n,
{
    if n >= 10 {
        lemma_dec_nat_nonempty(n / 10);
    }
}

pub proof fn lemma_dec_nonempty(n: Number)
    ensures
        encode_number(n).len() > 0,
{
    match n {
        Number::U64(u) => lemma_dec_nat_nonempty(u as nat),
        Number::I64(i) => if i < 0 {
            lemma_dec_nat_nonempty((-i) as nat)
        } else {
            lemma_dec_nat_nonempty(i as nat)
        },
        Number::Float(d) => {},
    }
}

} // verus!
