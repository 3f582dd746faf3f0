//! Typed encoding: values present themselves as fragments, which are written
//! out with an explicit stack of open containers.
use vstd::prelude::*;
use crate::model::{Json, encode, encode_entries_from, encode_items_from, quote};
use crate::value::{
    Array, Decimal, Number, Object, Value, entries_json, jsons_of, lemma_entries_json,
    lemma_jsons_of,
};
use crate::write::{escape_str, write_number, write_value};

verus! {

/// What a value presents for encoding: a terminal token, a sequence or map
/// whose children are in output order, or a value tree.
pub enum Fragment<'a> {
    Null,
    Bool(bool),
    Str(String),
    U64(u64),
    I64(i64),
    Float(Decimal),
    Sequence(Vec<Fragment<'a>>),
    Mapping(Vec<(String, Fragment<'a>)>),
    Tree(&'a Value),
}

/// The document that a fragment stands for; map entries keep their order.
pub open spec fn frag_json(f: Fragment) -> Json
    decreases f, 0int,
{
    match f {
        Fragment::Null => Json::Null,
        Fragment::Bool(b) => Json::Bool(b),
        Fragment::Str(s) => Json::Str(s@),
        Fragment::U64(n) => Json::Number(Number::U64(n)),
        Fragment::I64(n) => Json::Number(Number::I64(n)),
        Fragment::Float(d) => Json::Number(Number::Float(d)),
        Fragment::Sequence(items) => Json::Arr(frags_json(items@)),
        Fragment::Mapping(es) => Json::Obj(frag_entries_json(es@)),
        Fragment::Tree(v) => v@,
    }
}

pub open spec fn frags_json(s: Seq<Fragment>) -> Seq<Json>
    decreases s, 1int,
{
    if s.len() == 0 {
        Seq::empty()
    } else {
        frags_json(s.subrange(0, s.len() - 1)).push(frag_json(s[s.len() - 1]))
    }
}

pub open spec fn frag_entries_json(s: Seq<(String, Fragment)>) -> Seq<(Seq<char>, Json)>
    decreases s, 1int,
{
    if s.len() == 0 {
        Seq::empty()
    } else {
        frag_entries_json(s.subrange(0, s.len() - 1)).push(
            (s[s.len() - 1].0@, frag_json(s[s.len() - 1].1)),
        )
    }
}

pub proof fn lemma_frags_json(s: Seq<Fragment>)
    ensures
        frags_json(s).len() == s.len(),
        forall|i: int| 0 <= i < s.len() ==> #[trigger] frags_json(s)[i] == frag_json(s[i]),
    decreases s.len(),
{
    if s.len() > 0 {
        lemma_frags_json(s.subrange(0, s.len() - 1));
    }
}

pub proof fn lemma_frag_entries_json(s: Seq<(String, Fragment)>)
    ensures
        frag_entries_json(s).len() == s.len(),
        forall|i: int|
            0 <= i < s.len() ==> #[trigger] frag_entries_json(s)[i] == (
                s[i].0@,
                frag_json(s[i].1),
            ),
    decreases s.len(),
{
    if s.len() > 0 {
        lemma_frag_entries_json(s.subrange(0, s.len() - 1));
    }
}

/// Data structures that can be encoded as JSON text.
pub trait Serialize {
    /// Whether the type states the document that its values encode as.
    open spec fn described() -> bool {
        false
    }

    /// The document that a value encodes as, where the type states it.
    open spec fn doc(&self) -> Json {
        Json::Null
    }

    fn begin(&self) -> (r: Fragment<'_>)
        ensures
            Self::described() ==> frag_json(r) == self.doc(),
    ;
}

impl Serialize for Value {
    open spec fn described() -> bool {
        true
    }

    open spec fn doc(&self) -> Json {
        self@
    }

    fn begin(&self) -> (r: Fragment<'_>) {
        Fragment::Tree(self)
    }
}

impl Serialize for Number {
    open spec fn described() -> bool {
        true
    }

    open spec fn doc(&self) -> Json {
        Json::Number(*self)
    }

    fn begin(&self) -> (r: Fragment<'_>) {
        match self {
            Number::U64(n) => Fragment::U64(*n),
            Number::I64(n) => Fragment::I64(*n),
            Number::Float(d) => Fragment::Float(*d),
        }
    }
}

impl Serialize for Array {
    open spec fn described() -> bool {
        true
    }

    open spec fn doc(&self) -> Json {
        Json::Arr(jsons_of(self.items()))
    }

    fn begin(&self) -> (r: Fragment<'_>) {
        let items = self.as_vec();
        let mut out: Vec<Fragment> = Vec::new();
        let mut i: usize = 0;
        proof {
            lemma_jsons_of(items@);
        }
        while i < items.len()
            invariant
                i <= items@.len(),
                items@ == self.items(),
                jsons_of(items@).len() == items@.len(),
                forall|k: int| 0 <= k < items@.len() ==> #[trigger] jsons_of(items@)[k] == items@[k]@,
                out@.len() == i,
                forall|k: int| 0 <= k < i ==> frag_json(#[trigger] out@[k]) == items@[k]@,
            decreases items.len() - i,
        {
            out.push(Fragment::Tree(&items[i]));
            i = i + 1;
        }
        proof {
            lemma_frags_json(out@);
            assert(frags_json(out@) =~= jsons_of(items@));
        }
        Fragment::Sequence(out)
    }
}

impl Serialize for Object {
    open spec fn described() -> bool {
        true
    }

    open spec fn doc(&self) -> Json {
        Json::Obj(entries_json(self.entries()))
    }

    fn begin(&self) -> (r: Fragment<'_>) {
        let es = self.as_vec();
        let mut out: Vec<(String, Fragment)> = Vec::new();
        let mut i: usize = 0;
        proof {
            lemma_entries_json(es@);
        }
        while i < es.len()
            invariant
                i <= es@.len(),
                es@ == self.entries(),
                entries_json(es@).len() == es@.len(),
                forall|k: int|
                    0 <= k < es@.len() ==> #[trigger] entries_json(es@)[k] == (
                        es@[k].0@,
                        es@[k].1@,
                    ),
                out@.len() == i,
                forall|k: int| 0 <= k < i ==> (#[trigger] out@[k]).0@ == es@[k].0@,
                forall|k: int| 0 <= k < i ==> frag_json((#[trigger] out@[k]).1) == es@[k].1@,
            decreases es.len() - i,
        {
            let key: String = es[i].0.clone();
            assert(key@ == es@[i as int].0@);
            out.push((key, Fragment::Tree(&es[i].1)));
            i = i + 1;
        }
        proof {
            lemma_frag_entries_json(out@);
            assert(frag_entries_json(out@) =~= entries_json(es@));
        }
        Fragment::Mapping(out)
    }
}

impl Serialize for bool {
    open spec fn described() -> bool {
        true
    }

    open spec fn doc(&self) -> Json {
        Json::Bool(*self)
    }

    fn begin(&self) -> (r: Fragment<'_>) {
        Fragment::Bool(*self)
    }
}

impl Serialize for String {
    open spec fn described() -> bool {
        true
    }

    open spec fn doc(&self) -> Json {
        Json::Str(self@)
    }

    fn begin(&self) -> (r: Fragment<'_>) {
        Fragment::Str(self.clone())
    }
}

impl Serialize for u8 {
    open spec fn described() -> bool {
        true
    }

    open spec fn doc(&self) -> Json {
        Json::Number(Number::U64(*self as u64))
    }

    fn begin(&self) -> (r: Fragment<'_>) {
        Fragment::U64(*self as u64)
    }
}

impl Serialize for u16 {
    open spec fn described() -> bool {
        true
    }

    open spec fn doc(&self) -> Json {
        Json::Number(Number::U64(*self as u64))
    }

    fn begin(&self) -> (r: Fragment<'_>) {
        Fragment::U64(*self as u64)
    }
}

impl Serialize for i8 {
    open spec fn described() -> bool {
        true
    }

    open spec fn doc(&self) -> Json {
        Json::Number(Number::I64(*self as i64))
    }

    fn begin(&self) -> (r: Fragment<'_>) {
        Fragment::I64(*self as i64)
    }
}

impl Serialize for i16 {
    open spec fn described() -> bool {
        true
    }

    open spec fn doc(&self) -> Json {
        Json::Number(Number::I64(*self as i64))
    }

    fn begin(&self) -> (r: Fragment<'_>) {
        Fragment::I64(*self as i64)
    }
}

impl Serialize for i32 {
    open spec fn described() -> bool {
        true
    }

    open spec fn doc(&self) -> Json {
        Json::Number(Number::I64(*self as i64))
    }

    fn begin(&self) -> (r: Fragment<'_>) {
        Fragment::I64(*self as i64)
    }
}

impl Serialize for () {
    open spec fn described() -> bool {
        true
    }

    open spec fn doc(&self) -> Json {
        Json::Null
    }

    fn begin(&self) -> (r: Fragment<'_>) {
        Fragment::Null
    }
}

impl Serialize for u32 {
    open spec fn described() -> bool {
        true
    }

    open spec fn doc(&self) -> Json {
        Json::Number(Number::U64(*self as u64))
    }

    fn begin(&self) -> (r: Fragment<'_>) {
        Fragment::U64(*self as u64)
    }
}

impl Serialize for u64 {
    open spec fn described() -> bool {
        true
    }

    open spec fn doc(&self) -> Json {
        Json::Number(Number::U64(*self))
    }

    fn begin(&self) -> (r: Fragment<'_>) {
        Fragment::U64(*self)
    }
}

impl Serialize for i64 {
    open spec fn described() -> bool {
        true
    }

    open spec fn doc(&self) -> Json {
        Json::Number(Number::I64(*self))
    }

    fn begin(&self) -> (r: Fragment<'_>) {
        Fragment::I64(*self)
    }
}

impl<T: Serialize> Serialize for Option<T> {
    open spec fn described() -> bool {
        T::described()
    }

    open spec fn doc(&self) -> Json {
        match self {
            Some(x) => x.doc(),
            None => Json::Null,
        }
    }

    fn begin(&self) -> (r: Fragment<'_>) {
        match self {
            Some(x) => x.begin(),
            None => Fragment::Null,
        }
    }
}

impl<T: Serialize> Serialize for Box<T> {
    open spec fn described() -> bool {
        T::described()
    }

    open spec fn doc(&self) -> Json {
        (**self).doc()
    }

    fn begin(&self) -> (r: Fragment<'_>) {
        (**self).begin()
    }
}

impl<A: Serialize, B: Serialize> Serialize for (A, B) {
    open spec fn described() -> bool {
        A::described() && B::described()
    }

    open spec fn doc(&self) -> Json {
        Json::Arr(seq![self.0.doc(), self.1.doc()])
    }

    fn begin(&self) -> (r: Fragment<'_>) {
        let items = vec![self.0.begin(), self.1.begin()];
        proof {
            lemma_frags_json(items@);
            if Self::described() {
                assert(frags_json(items@) =~= seq![self.0.doc(), self.1.doc()]);
            }
        }
        Fragment::Sequence(items)
    }
}

/// The fragments of a sequence of values, in order.
pub fn stream_slice<T: Serialize>(items: &[T]) -> (r: Vec<Fragment<'_>>)
    ensures
        r@.len() == items@.len(),
        T::described() ==> forall|i: int|
            0 <= i < items@.len() ==> frag_json(#[trigger] r@[i]) == items@[i].doc(),
{
    let mut out: Vec<Fragment> = Vec::new();
    let mut i: usize = 0;
    while i < items.len()
        invariant
            i <= items@.len(),
            out@.len() == i,
            T::described() ==> forall|k: int|
                0 <= k < i ==> frag_json(#[trigger] out@[k]) == items@[k].doc(),
        decreases items.len() - i,
    {
        out.push(items[i].begin());
        i = i + 1;
    }
    out
}

impl<T: Serialize> Serialize for Vec<T> {
    open spec fn described() -> bool {
        T::described()
    }

    open spec fn doc(&self) -> Json {
        Json::Arr(self@.map_values(|x: T| x.doc()))
    }

    fn begin(&self) -> (r: Fragment<'_>) {
        let items = stream_slice(self.as_slice());
        proof {
            lemma_frags_json(items@);
            if T::described() {
                assert(frags_json(items@) =~= self@.map_values(|x: T| x.doc()));
            }
        }
        Fragment::Sequence(items)
    }
}

impl<T: Serialize, const N: usize> Serialize for [T; N] {
    open spec fn described() -> bool {
        T::described()
    }

    open spec fn doc(&self) -> Json {
        Json::Arr(self@.map_values(|x: T| x.doc()))
    }

    fn begin(&self) -> (r: Fragment<'_>) {
        let items = stream_slice(self.as_slice());
        proof {
            lemma_frags_json(items@);
            if T::described() {
                assert(frags_json(items@) =~= self@.map_values(|x: T| x.doc()));
            }
        }
        Fragment::Sequence(items)
    }
}

/// A container being written: its children and the index of the next one.
enum Frame<'b, 'a> {
    Items(&'b Vec<Fragment<'a>>, usize),
    Entries(&'b Vec<(String, Fragment<'a>)>, usize),
}

spec fn frame_rest(f: Frame) -> Seq<char> {
    match f {
        Frame::Items(v, i) => encode_items_from(frags_json(v@), i as int) + seq![']'],
        Frame::Entries(v, i) => encode_entries_from(frag_entries_json(v@), i as int) + seq!['}'],
    }
}

spec fn frame_ok(f: Frame) -> bool {
    match f {
        Frame::Items(v, i) => i <= v@.len(),
        Frame::Entries(v, i) => i <= v@.len(),
    }
}

spec fn stack_rest(st: Seq<Frame>) -> Seq<char>
    decreases st.len(),
{
    if st.len() == 0 {
        Seq::empty()
    } else {
        frame_rest(st.last()) + stack_rest(st.drop_last())
    }
}

proof fn lemma_nonempty(j: Json)
    ensures
        encode(j).len() > 0,
{
    match j {
        Json::Number(n) => crate::write::lemma_dec_nonempty(n),
        _ => {},
    }
}

/// Appends the text of a fragment tree, containers in the order of their
/// children.
#[verifier::rlimit(60)]
pub fn write_fragment(root: &Fragment, out: &mut String)
    ensures
        final(out)@ == old(out)@ + encode(frag_json(*root)),
{
    let ghost start = out@;
    let ghost goal = start + encode(frag_json(*root));
    let mut stack: Vec<Frame> = Vec::new();
    let mut cur: &Fragment = root;
    assert(start + encode(frag_json(*cur)) + stack_rest(stack@) =~= goal);
    loop
        invariant
            start == old(out)@,
            goal == start + encode(frag_json(*root)),
            forall|k: int| 0 <= k < stack@.len() ==> frame_ok(#[trigger] stack@[k]),
            out@ + encode(frag_json(*cur)) + stack_rest(stack@) == goal,
        decreases goal.len() - out@.len(),
    {
        let ghost out0 = out@;
        let ghost j = frag_json(*cur);
        proof {
            lemma_nonempty(j);
        }
        match cur {
            Fragment::Null => write_value(&Value::Null, out),
            Fragment::Bool(b) => write_value(&Value::Bool(*b), out),
            Fragment::U64(n) => write_number(Number::U64(*n), out),
            Fragment::I64(n) => write_number(Number::I64(*n), out),
            Fragment::Float(d) => write_number(Number::Float(*d), out),
            Fragment::Str(s) => escape_str(s.as_str(), out),
            Fragment::Tree(v) => write_value(v, out),
            Fragment::Sequence(items) => {
                proof {
                    lemma_frags_json(items@);
                }
                if items.len() == 0 {
                    crate::write::push_pair(out, '[', ']');
                } else {
                    crate::write::push_one(out, '[');
                    let ghost st0 = stack@;
                    stack.push(Frame::Items(items, 1));
                    proof {
                        assert(stack@.drop_last() =~= st0);
                        assert(out@ + encode(frag_json(items@[0])) + stack_rest(stack@) =~= out0
                            + encode(j) + stack_rest(st0));
                    }
                    cur = &items[0];
                    continue ;
                }
            },
            Fragment::Mapping(es) => {
                proof {
                    lemma_frag_entries_json(es@);
                }
                if es.len() == 0 {
                    crate::write::push_pair(out, '{', '}');
                } else {
                    crate::write::push_one(out, '{');
                    escape_str(es[0].0.as_str(), out);
                    crate::write::push_one(out, ':');
                    let ghost st0 = stack@;
                    stack.push(Frame::Entries(es, 1));
                    proof {
                        assert(stack@.drop_last() =~= st0);
                        assert(out@ + encode(frag_json(es@[0].1)) + stack_rest(stack@) =~= out0
                            + encode(j) + stack_rest(st0));
                    }
                    cur = &es[0].1;
                    continue ;
                }
            },
        }
        assert(out@ =~= out0 + encode(j));
        loop
            invariant_except_break
                out@ + stack_rest(stack@) == goal,
            invariant
                start == old(out)@,
                goal == start + encode(frag_json(*root)),
                out@.len() > out0.len(),
                forall|k: int| 0 <= k < stack@.len() ==> frame_ok(#[trigger] stack@[k]),
            ensures
                out@ + encode(frag_json(*cur)) + stack_rest(stack@) == goal,
            decreases stack@.len(),
        {
            let ghost st0 = stack@;
            let ghost o1 = out@;
            match stack.pop() {
                None => {
                    assert(out@ =~= goal);
                    return ;
                },
                Some(Frame::Items(items, i)) => {
                    proof {
                        lemma_frags_json(items@);
                        assert(frame_ok(st0[st0.len() - 1]));
                    }
                    if i < items.len() {
                        crate::write::push_one(out, ',');
                        stack.push(Frame::Items(items, i + 1));
                        proof {
                            assert(stack@.drop_last() =~= st0.drop_last());
                            assert(forall|k: int|
                                0 <= k < stack@.len() - 1 ==> stack@[k] == st0[k]);
                            assert(out@ + encode(frag_json(items@[i as int])) + stack_rest(stack@)
                                =~= o1 + stack_rest(st0));
                        }
                        cur = &items[i];
                        break ;
                    } else {
                        crate::write::push_one(out, ']');
                        assert(out@ + stack_rest(stack@) =~= o1 + stack_rest(st0));
                    }
                },
                Some(Frame::Entries(es, i)) => {
                    proof {
                        lemma_frag_entries_json(es@);
                        assert(frame_ok(st0[st0.len() - 1]));
                    }
                    if i < es.len() {
                        crate::write::push_one(out, ',');
                        escape_str(es[i].0.as_str(), out);
                        crate::write::push_one(out, ':');
                        stack.push(Frame::Entries(es, i + 1));
                        proof {
                            assert(stack@.drop_last() =~= st0.drop_last());
                            assert(forall|k: int|
                                0 <= k < stack@.len() - 1 ==> stack@[k] == st0[k]);
                            assert(out@ + encode(frag_json(es@[i as int].1)) + stack_rest(stack@)
                                =~= o1 + stack_rest(st0));
                        }
                        cur = &es[i].1;
                        break ;
                    } else {
                        crate::write::push_one(out, '}');
                        assert(out@ + stack_rest(stack@) =~= o1 + stack_rest(st0));
                    }
                },
            }
        }
    }
}

/// Encodes any value that presents fragments as JSON text.
pub fn to_string<T: Serialize + ?Sized>(value: &T) -> (r: String)
    ensures
        T::described() ==> r@ == encode(value.doc()),
        exists|f: Fragment| r@ == encode(frag_json(f)),
{
    let f = value.begin();
    let mut out = String::new();
    write_fragment(&f, &mut out);
    assert(out@ =~= encode(frag_json(f)));
    out
}

} // verus!
