//! The decoder: events from the tokenizer drive an explicit stack of open
//! containers, never recursion.
use vstd::prelude::*;
use crate::error::{Error, Result};
use crate::grammar::{
    byte_at, decode, elems, scalar_at, key_at, members, number_at, rem, string_at, value, word_at, ws_len,
};
use crate::lex::Reader;
use crate::model::{Json, insert_entry};
use crate::value::{
    Array, Object, Value, entries_json, json_of, jsons_of, lemma_entries_json, lemma_jsons_of,
    lemma_jsons_push,
};

verus! {

/// One token of input: a complete scalar, or the opening of a container.
pub enum Event {
    Scalar(Value),
    SeqStart,
    MapStart,
}

impl<'a> Reader<'a> {
    /// Reads the next token after any whitespace.
    pub fn event(&mut self) -> (r: Result<Event>)
        requires
            old(self).ok(),
        ensures
            final(self).ok(),
            final(self).input == old(self).input,
            final(self).pos >= old(self).pos,
            ({
                let s = old(self).text();
                let i = old(self).pos as int;
                let p = i + ws_len(s, i);
                match r {
                    Ok(Event::Scalar(v)) => !byte_at(s, p, 0x5b) && !byte_at(s, p, 0x7b)
                        && scalar_at(s, p) == Some((v@, final(self).pos as int)),
                    Ok(Event::SeqStart) => byte_at(s, p, 0x5b) && final(self).pos == p + 1,
                    Ok(Event::MapStart) => byte_at(s, p, 0x7b) && final(self).pos == p + 1,
                    Err(_) => !byte_at(s, p, 0x5b) && !byte_at(s, p, 0x7b) && scalar_at(s, p) is None,
                }
            }),
    {
        let ghost s = self.text();
        let ghost i = self.pos as int;
        let c = match self.parse_whitespace() {
            Some(c) => c,
            None => return Err(Error),
        };
        if 48 <= c && c <= 57 {
            let n = self.parse_integer(true)?;
            return Ok(Event::Scalar(Value::Number(n)));
        }
        self.pos = self.pos + 1;
        if c == 0x22 {
            let t = self.parse_str()?;
            Ok(Event::Scalar(Value::String(t)))
        } else if c == 0x2d {
            let n = self.parse_integer(false)?;
            Ok(Event::Scalar(Value::Number(n)))
        } else if c == 0x5b {
            Ok(Event::SeqStart)
        } else if c == 0x7b {
            Ok(Event::MapStart)
        } else if c == 0x6e {
            self.parse_ident(&[0x75u8, 0x6c, 0x6c])?;
            proof {
                assert(seq![0x75u8, 0x6c, 0x6c] =~= [0x75u8, 0x6c, 0x6c]@);
            }
            Ok(Event::Scalar(Value::Null))
        } else if c == 0x74 {
            self.parse_ident(&[0x72u8, 0x75, 0x65])?;
            proof {
                assert(seq![0x72u8, 0x75, 0x65] =~= [0x72u8, 0x75, 0x65]@);
            }
            Ok(Event::Scalar(Value::Bool(true)))
        } else if c == 0x66 {
            self.parse_ident(&[0x61u8, 0x6c, 0x73, 0x65])?;
            proof {
                assert(seq![0x61u8, 0x6c, 0x73, 0x65] =~= [0x61u8, 0x6c, 0x73, 0x65]@);
            }
            Ok(Event::Scalar(Value::Bool(false)))
        } else {
            Err(Error)
        }
    }
}

/// A container whose children are being read, as a mathematical value: the
/// items read so far, or the entries read so far and the key of the next.
pub enum Pending {
    Items(Seq<Json>),
    Members(Seq<(Seq<char>, Json)>, Seq<char>),
}

/// What the whole text decodes to, given the open containers `fr`
/// (innermost last) and a value `v` that was just read up to position `j`.
#[verifier::opaque]
pub open spec fn resume(s: Seq<u8>, fr: Seq<Pending>, v: Json, j: int) -> Option<Json>
    decreases rem(s, j),
{
    let w = ws_len(s, j);
    let k = j + w;
    if fr.len() == 0 {
        if k == s.len() {
            Some(v)
        } else {
            None
        }
    } else {
        match fr.last() {
            Pending::Items(acc) => if byte_at(s, k, 0x2c) {
                match value(s, k + 1) {
                    Some((v2, n2)) => resume(
                        s,
                        fr.drop_last().push(Pending::Items(acc.push(v))),
                        v2,
                        k + 1 + n2,
                    ),
                    None => None,
                }
            } else if byte_at(s, k, 0x5d) {
                resume(s, fr.drop_last(), Json::Arr(acc.push(v)), k + 1)
            } else {
                None
            },
            Pending::Members(acc, key) => {
                let es = insert_entry(acc, key, v);
                if byte_at(s, k, 0x2c) {
                    let q = k + 1 + ws_len(s, k + 1);
                    match key_at(s, q) {
                        Some((key2, kn)) => match value(s, q + kn) {
                            Some((v2, n2)) => resume(
                                s,
                                fr.drop_last().push(Pending::Members(es, key2)),
                                v2,
                                q + kn + n2,
                            ),
                            None => None,
                        },
                        None => None,
                    }
                } else if byte_at(s, k, 0x7d) {
                    resume(s, fr.drop_last(), Json::Obj(es), k + 1)
                } else {
                    None
                }
            },
        }
    }
}

/// Continues a parse result that starts at `i` with the open containers `fr`.
pub open spec fn then_at(s: Seq<u8>, r: Option<(Json, nat)>, i: int, fr: Seq<Pending>) -> Option<
    Json,
> {
    match r {
        Some((v, n)) => resume(s, fr, v, i + n),
        None => None,
    }
}

pub proof fn lemma_elems_unfold(s: Seq<u8>, i: int, acc: Seq<Json>)
    ensures
        elems(s, i, acc) == match value(s, i) {
            Some((v, n)) => {
                let w = ws_len(s, i + n);
                let k = i + n + w;
                if byte_at(s, k, 0x2c) {
                    match elems(s, k + 1, acc.push(v)) {
                        Some((a, m)) => Some((a, n + w + 1 + m)),
                        None => None,
                    }
                } else if byte_at(s, k, 0x5d) {
                    Some((Json::Arr(acc.push(v)), n + w + 1))
                } else {
                    None
                }
            },
            None => None,
        },
{
    reveal_with_fuel(value, 1);
}

pub proof fn lemma_members_unfold(s: Seq<u8>, i: int, acc: Seq<(Seq<char>, Json)>)
    ensures
        members(s, i, acc) == match key_at(s, i) {
            Some((key, kn)) => match value(s, i + kn) {
                Some((v, n)) => {
                    let j = i + kn + n;
                    let w = ws_len(s, j);
                    let es = insert_entry(acc, key, v);
                    if byte_at(s, j + w, 0x2c) {
                        let w2 = ws_len(s, j + w + 1);
                        match members(s, j + w + 1 + w2, es) {
                            Some((o, m)) => Some((o, kn + n + w + 1 + w2 + m)),
                            None => None,
                        }
                    } else if byte_at(s, j + w, 0x7d) {
                        Some((Json::Obj(es), kn + n + w + 1))
                    } else {
                        None
                    }
                },
                None => None,
            },
            None => None,
        },
{
    reveal_with_fuel(value, 1);
}

/// Reading the rest of an array is reading its next element inside it.
proof fn lemma_elems(s: Seq<u8>, i: int, acc: Seq<Json>, fr: Seq<Pending>)
    ensures
        then_at(s, elems(s, i, acc), i, fr) == then_at(
            s,
            value(s, i),
            i,
            fr.push(Pending::Items(acc)),
        ),
    decreases rem(s, i),
{
    lemma_elems_unfold(s, i, acc);
    match value(s, i) {
        Some((v, n)) => {
            let k = i + n + ws_len(s, i + n);
            lemma_resume_items(s, fr, acc, v, i + n);
            if byte_at(s, k, 0x2c) {
                lemma_elems(s, k + 1, acc.push(v), fr);
            }
        },
        None => {},
    }
}

/// Reading the rest of an object is reading its next key, then the value
/// inside it.
proof fn lemma_members(s: Seq<u8>, i: int, acc: Seq<(Seq<char>, Json)>, fr: Seq<Pending>)
    ensures
        then_at(s, members(s, i, acc), i, fr) == match key_at(s, i) {
            Some((key, kn)) => then_at(
                s,
                value(s, i + kn),
                i + kn,
                fr.push(Pending::Members(acc, key)),
            ),
            None => None,
        },
    decreases rem(s, i),
{
    lemma_members_unfold(s, i, acc);
    match key_at(s, i) {
        Some((key, kn)) => {
            match value(s, i + kn) {
                Some((v, n)) => {
                    let j = i + kn + n;
                    let k = j + ws_len(s, j);
                    let es = insert_entry(acc, key, v);
                    lemma_resume_members(s, fr, acc, key, v, j);
                    if byte_at(s, k, 0x2c) {
                        let q = k + 1 + ws_len(s, k + 1);
                        lemma_members(s, q, es, fr);
                    }
                },
                None => {},
            }
        },
        None => {},
    }
}

pub proof fn lemma_value_scalar(s: Seq<u8>, i: int)
    requires
        !byte_at(s, i + ws_len(s, i), 0x5b),
        !byte_at(s, i + ws_len(s, i), 0x7b),
    ensures
        value(s, i) == match scalar_at(s, i + ws_len(s, i)) {
            Some((v, e)) => Some((v, (e - i) as nat)),
            None => None,
        },
{
    reveal_with_fuel(value, 1);
}

pub proof fn lemma_value_unfold_seq(s: Seq<u8>, i: int)
    requires
        byte_at(s, i + ws_len(s, i), 0x5b),
    ensures
        ({
            let w = ws_len(s, i);
            let p = i + w;
            let w2 = ws_len(s, p + 1);
            let q = p + 1 + w2;
            value(s, i) == if byte_at(s, q, 0x5d) {
                Some((Json::Arr(Seq::empty()), w + 1 + w2 + 1))
            } else {
                match elems(s, q, Seq::empty()) {
                    Some((v, m)) => Some((v, w + 1 + w2 + m)),
                    None => None,
                }
            }
        }),
{
    reveal_with_fuel(value, 1);
}

proof fn lemma_value_seq(s: Seq<u8>, i: int, fr: Seq<Pending>)
    requires
        byte_at(s, i + ws_len(s, i), 0x5b),
    ensures
        ({
            let p = i + ws_len(s, i);
            let q = p + 1 + ws_len(s, p + 1);
            &&& byte_at(s, q, 0x5d) ==> value(s, i) == Some(
                (Json::Arr(Seq::empty()), (q + 1 - i) as nat),
            )
            &&& !byte_at(s, q, 0x5d) ==> then_at(s, value(s, i), i, fr) == then_at(
                s,
                value(s, q),
                q,
                fr.push(Pending::Items(Seq::empty())),
            )
        }),
{
    let p = i + ws_len(s, i);
    let q = p + 1 + ws_len(s, p + 1);
    lemma_value_unfold_seq(s, i);
    lemma_elems(s, q, Seq::empty(), fr);
}

pub proof fn lemma_value_unfold_map(s: Seq<u8>, i: int)
    requires
        byte_at(s, i + ws_len(s, i), 0x7b),
    ensures
        ({
            let w = ws_len(s, i);
            let p = i + w;
            let w2 = ws_len(s, p + 1);
            let q = p + 1 + w2;
            value(s, i) == if byte_at(s, q, 0x7d) {
                Some((Json::Obj(Seq::empty()), w + 1 + w2 + 1))
            } else {
                match members(s, q, Seq::empty()) {
                    Some((v, m)) => Some((v, w + 1 + w2 + m)),
                    None => None,
                }
            }
        }),
{
    reveal_with_fuel(value, 1);
}

proof fn lemma_value_map(s: Seq<u8>, i: int, fr: Seq<Pending>)
    requires
        byte_at(s, i + ws_len(s, i), 0x7b),
    ensures
        ({
            let p = i + ws_len(s, i);
            let q = p + 1 + ws_len(s, p + 1);
            &&& byte_at(s, q, 0x7d) ==> value(s, i) == Some(
                (Json::Obj(Seq::empty()), (q + 1 - i) as nat),
            )
            &&& !byte_at(s, q, 0x7d) ==> then_at(s, value(s, i), i, fr) == match key_at(s, q) {
                Some((key, kn)) => then_at(
                    s,
                    value(s, q + kn),
                    q + kn,
                    fr.push(Pending::Members(Seq::empty(), key)),
                ),
                None => None,
            }
        }),
{
    let p = i + ws_len(s, i);
    let q = p + 1 + ws_len(s, p + 1);
    lemma_value_unfold_map(s, i);
    lemma_members(s, q, Seq::empty(), fr);
}

proof fn lemma_resume_top(s: Seq<u8>, v: Json, j: int)
    ensures
        resume(s, Seq::empty(), v, j) == (if j + ws_len(s, j) == s.len() {
            Some(v)
        } else {
            None
        }),
{
    reveal_with_fuel(resume, 1);
}

proof fn lemma_resume_items(s: Seq<u8>, fr: Seq<Pending>, acc: Seq<Json>, v: Json, j: int)
    ensures
        ({
            let k = j + ws_len(s, j);
            resume(s, fr.push(Pending::Items(acc)), v, j) == if byte_at(s, k, 0x2c) {
                then_at(s, value(s, k + 1), k + 1, fr.push(Pending::Items(acc.push(v))))
            } else if byte_at(s, k, 0x5d) {
                resume(s, fr, Json::Arr(acc.push(v)), k + 1)
            } else {
                None
            }
        }),
{
    reveal_with_fuel(resume, 1);
    assert(fr.push(Pending::Items(acc)).drop_last() =~= fr);
}

proof fn lemma_resume_members(
    s: Seq<u8>,
    fr: Seq<Pending>,
    acc: Seq<(Seq<char>, Json)>,
    key: Seq<char>,
    v: Json,
    j: int,
)
    ensures
        ({
            let k = j + ws_len(s, j);
            let es = insert_entry(acc, key, v);
            let q = k + 1 + ws_len(s, k + 1);
            resume(s, fr.push(Pending::Members(acc, key)), v, j) == if byte_at(s, k, 0x2c) {
                match key_at(s, q) {
                    Some((key2, kn)) => then_at(
                        s,
                        value(s, q + kn),
                        q + kn,
                        fr.push(Pending::Members(es, key2)),
                    ),
                    None => None,
                }
            } else if byte_at(s, k, 0x7d) {
                resume(s, fr, Json::Obj(es), k + 1)
            } else {
                None
            }
        }),
{
    reveal_with_fuel(resume, 1);
    assert(fr.push(Pending::Members(acc, key)).drop_last() =~= fr);
}

/// An open container in the decoder.
enum Build {
    Items(Vec<Value>),
    Members(Object, String),
}

spec fn build_view(b: Build) -> Pending {
    match b {
        Build::Items(v) => Pending::Items(jsons_of(v@)),
        Build::Members(o, k) => Pending::Members(entries_json(o.entries()), k@),
    }
}

spec fn views(st: Seq<Build>) -> Seq<Pending> {
    st.map_values(|b: Build| build_view(b))
}

/// Where the decoder stands after a step.
enum Step {
    /// A value was completed and the containers round it are still open.
    Closed(Value),
    /// The next thing to read is a value.
    Next,
    /// The whole text was read.
    Done(Value),
}

/// Reads a token where a value is expected: either it completes a value, or
/// it opens a container whose first child comes next.
fn start_value(de: &mut Reader, stack: &mut Vec<Build>) -> (r: Result<Step>)
    requires
        old(de).ok(),
    ensures
        final(de).ok(),
        final(de).input == old(de).input,
        ({
            let s = old(de).text();
            let i = old(de).pos as int;
            let target = then_at(s, value(s, i), i, views(old(stack)@));
            match r {
                Err(_) => target is None,
                Ok(Step::Closed(v)) => final(stack)@ == old(stack)@ && final(de).pos >= i
                    && target == resume(s, views(final(stack)@), v@, final(de).pos as int),
                Ok(Step::Next) => final(de).pos > i && target == then_at(
                    s,
                    value(s, final(de).pos as int),
                    final(de).pos as int,
                    views(final(stack)@),
                ),
                Ok(Step::Done(_)) => false,
            }
        }),
{
    let ghost s = de.text();
    let ghost i = de.pos as int;
    let ghost fr = views(stack@);
    match de.event() {
        Err(e) => {
            proof {
                lemma_value_scalar(s, i);
            }
            Err(e)
        },
        Ok(Event::Scalar(v)) => {
            proof {
                lemma_value_scalar(s, i);
            }
            Ok(Step::Closed(v))
        },
        Ok(Event::SeqStart) => {
            proof {
                lemma_value_seq(s, i, fr);
            }
            let c = de.parse_whitespace();
            if c == Some(0x5du8) {
                de.pos = de.pos + 1;
                assert(jsons_of(Seq::<Value>::empty()) =~= Seq::<Json>::empty());
                Ok(Step::Closed(Value::Array(Array::new())))
            } else {
                stack.push(Build::Items(Vec::new()));
                assert(jsons_of(Seq::<Value>::empty()) =~= Seq::<Json>::empty());
                assert(views(stack@) =~= fr.push(Pending::Items(Seq::empty())));
                Ok(Step::Next)
            }
        },
        Ok(Event::MapStart) => {
            proof {
                lemma_value_map(s, i, fr);
            }
            let c = de.parse_whitespace();
            if c == Some(0x7du8) {
                de.pos = de.pos + 1;
                assert(entries_json(Seq::<(String, Value)>::empty()) =~= Seq::<
                    (Seq<char>, Json),
                >::empty());
                Ok(Step::Closed(Value::Object(Object::new())))
            } else {
                let key = de.parse_key()?;
                let obj = Object::new();
                assert(entries_json(obj.entries()) =~= Seq::<(Seq<char>, Json)>::empty());
                stack.push(Build::Members(obj, key));
                assert(views(stack@) =~= fr.push(Pending::Members(Seq::empty(), key@)));
                Ok(Step::Next)
            }
        },
    }
}

/// Hands a completed value to the innermost open container, and reads what
/// follows it: a comma before the next child, or the container's close.
fn finish_value(de: &mut Reader, stack: &mut Vec<Build>, done: Value) -> (r: Result<Step>)
    requires
        old(de).ok(),
    ensures
        final(de).ok(),
        final(de).input == old(de).input,
        ({
            let s = old(de).text();
            let j = old(de).pos as int;
            let target = resume(s, views(old(stack)@), done@, j);
            match r {
                Err(_) => target is None,
                Ok(Step::Closed(v)) => final(stack)@.len() < old(stack)@.len() && final(de).pos
                    > j && target == resume(s, views(final(stack)@), v@, final(de).pos as int),
                Ok(Step::Next) => final(de).pos > j && target == then_at(
                    s,
                    value(s, final(de).pos as int),
                    final(de).pos as int,
                    views(final(stack)@),
                ),
                Ok(Step::Done(v)) => target == Some(v@),
            }
        }),
{
    let ghost s = de.text();
    let ghost st0 = stack@;
    let ghost j = de.pos as int;
    let ghost dv = done@;
    match stack.pop() {
        None => {
            proof {
                assert(views(st0) =~= Seq::<Pending>::empty());
                lemma_resume_top(s, dv, j);
            }
            let c = de.parse_whitespace();
            if c.is_none() {
                Ok(Step::Done(done))
            } else {
                Err(Error)
            }
        },
        Some(Build::Items(mut items)) => {
            let ghost acc = jsons_of(items@);
            let ghost fr1 = views(stack@);
            proof {
                assert(views(st0) =~= fr1.push(Pending::Items(acc)));
                lemma_resume_items(s, fr1, acc, dv, j);
                lemma_jsons_push(items@, done);
            }
            items.push(done);
            let c = de.parse_whitespace();
            if c == Some(0x2cu8) {
                de.pos = de.pos + 1;
                stack.push(Build::Items(items));
                assert(views(stack@) =~= fr1.push(Pending::Items(acc.push(dv))));
                Ok(Step::Next)
            } else if c == Some(0x5du8) {
                de.pos = de.pos + 1;
                Ok(Step::Closed(Value::Array(Array::from_vec(items))))
            } else {
                Err(Error)
            }
        },
        Some(Build::Members(mut obj, key)) => {
            let ghost acc = entries_json(obj.entries());
            let ghost fr1 = views(stack@);
            proof {
                assert(views(st0) =~= fr1.push(Pending::Members(acc, key@)));
                lemma_resume_members(s, fr1, acc, key@, dv, j);
            }
            let ghost es = insert_entry(acc, key@, dv);
            obj.insert(key, done);
            let c = de.parse_whitespace();
            if c == Some(0x2cu8) {
                de.pos = de.pos + 1;
                de.parse_whitespace();
                let key2 = de.parse_key()?;
                stack.push(Build::Members(obj, key2));
                assert(views(stack@) =~= fr1.push(Pending::Members(es, key2@)));
                Ok(Step::Next)
            } else if c == Some(0x7du8) {
                de.pos = de.pos + 1;
                Ok(Step::Closed(Value::Object(obj)))
            } else {
                Err(Error)
            }
        },
    }
}

/// Decodes JSON text given as bytes into a value tree.
pub fn from_bytes(input: &[u8]) -> (r: Result<Value>)
    ensures
        match decode(input@) {
            Some(j) => r is Ok && r->Ok_0@ == j,
            None => r is Err,
        },
{
    let ghost s = input@;
    let mut de = Reader::new(input);
    let mut stack: Vec<Build> = Vec::new();
    proof {
        assert(views(stack@) =~= Seq::<Pending>::empty());
        match value(s, 0) {
            Some((v, n)) => lemma_resume_top(s, v, n as int),
            None => {},
        }
    }
    loop
        invariant
            s == input@,
            de.ok(),
            de.input@ == s,
            decode(s) == then_at(s, value(s, de.pos as int), de.pos as int, views(stack@)),
        decreases s.len() - de.pos,
    {
        let ghost i = de.pos as int;
        let mut done = match start_value(&mut de, &mut stack)? {
            Step::Closed(v) => v,
            _ => continue ,
        };
        loop
            invariant_except_break
                decode(s) == resume(s, views(stack@), done@, de.pos as int),
            invariant
                s == input@,
                de.ok(),
                de.input@ == s,
                de.pos >= i,
            ensures
                de.pos > i,
                decode(s) == then_at(s, value(s, de.pos as int), de.pos as int, views(stack@)),
            decreases stack.len(),
        {
            match finish_value(&mut de, &mut stack, done)? {
                Step::Closed(v) => {
                    done = v;
                },
                Step::Next => {
                    break ;
                },
                Step::Done(v) => {
                    return Ok(v);
                },
            }
        }
    }
}

} // verus!
