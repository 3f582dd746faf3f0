//! The dynamic value tree, whose teardown never recurses.
use vstd::prelude::*;
use crate::model::{Json, insert_entry, key_lt, bytes_lt};
use crate::laws::{lemma_insert_sorted, lemma_key_trans, lemma_key_total, lemma_key_asym, sorted_keys};

verus! {

broadcast use vstd::std_specs::vec::group_vec_axioms;

/// A number that has a fraction, an exponent, or more digits than an integer
/// holds, kept as the decimal parts read from the text: the value is
/// `significand × 10^exponent`, negated unless `nonnegative`.
#[derive(Clone, Copy, Debug, PartialEq, Eq)]
pub struct Decimal {
    pub nonnegative: bool,
    pub significand: u64,
    pub exponent: i32,
}

/// A JSON number.
#[derive(Clone, Copy, Debug, PartialEq, Eq)]
pub enum Number {
    U64(u64),
    I64(i64),
    Float(Decimal),
}

/// Any JSON value. Dropping one never recurses, however deep it is nested.
#[derive(Debug)]
pub enum Value {
    Null,
    Bool(bool),
    Number(Number),
    String(String),
    Array(Array),
    Object(Object),
}

/// A sequence of values with a non-recursive drop.
#[derive(Debug)]
pub struct Array {
    inner: Vec<Value>,
}

/// A mapping from keys to values, sorted by key, with a non-recursive drop.
#[derive(Debug)]
pub struct Object {
    inner: Vec<(String, Value)>,
}

impl Array {
    pub closed spec fn items(&self) -> Seq<Value> {
        self.inner@
    }
}

impl Object {
    pub closed spec fn entries(&self) -> Seq<(String, Value)> {
        self.inner@
    }

    /// The keys are strictly ascending.
    #[verifier::type_invariant]
    closed spec fn keys_ascending(&self) -> bool {
        sorted_keys(entries_json(self.inner@))
    }
}

/// The document that a value stands for.
pub open spec fn json_of(v: Value) -> Json
    decreases v, 0int,
{
    match v {
        Value::Null => Json::Null,
        Value::Bool(b) => Json::Bool(b),
        Value::Number(n) => Json::Number(n),
        Value::String(s) => Json::Str(s@),
        Value::Array(a) => Json::Arr(jsons_of(a.items())),
        Value::Object(o) => Json::Obj(entries_json(o.entries())),
    }
}

pub open spec fn jsons_of(s: Seq<Value>) -> Seq<Json>
    decreases s, 1int,
{
    if s.len() == 0 {
        Seq::empty()
    } else {
        jsons_of(s.subrange(0, s.len() - 1)).push(json_of(s[s.len() - 1]))
    }
}

pub open spec fn entries_json(s: Seq<(String, Value)>) -> Seq<(Seq<char>, Json)>
    decreases s, 1int,
{
    if s.len() == 0 {
        Seq::empty()
    } else {
        entries_json(s.subrange(0, s.len() - 1)).push(
            (s[s.len() - 1].0@, json_of(s[s.len() - 1].1)),
        )
    }
}

impl View for Value {
    type V = Json;

    open spec fn view(&self) -> Json {
        json_of(*self)
    }
}

pub proof fn lemma_jsons_of(s: Seq<Value>)
    ensures
        jsons_of(s).len() == s.len(),
        forall|i: int| 0 <= i < s.len() ==> #[trigger] jsons_of(s)[i] == json_of(s[i]),
    decreases s.len(),
{
    if s.len() > 0 {
        lemma_jsons_of(s.subrange(0, s.len() - 1));
    }
}

pub proof fn lemma_entries_json(s: Seq<(String, Value)>)
    ensures
        entries_json(s).len() == s.len(),
        forall|i: int|
            0 <= i < s.len() ==> #[trigger] entries_json(s)[i] == (s[i].0@, json_of(s[i].1)),
    decreases s.len(),
{
    if s.len() > 0 {
        lemma_entries_json(s.subrange(0, s.len() - 1));
    }
}

pub proof fn lemma_jsons_push(s: Seq<Value>, v: Value)
    ensures
        jsons_of(s.push(v)) == jsons_of(s).push(json_of(v)),
{
    assert(s.push(v).subrange(0, s.len() as int) =~= s);
}

impl Default for Value {
    fn default() -> (r: Value)
        ensures
            r@ == Json::Null,
    {
        Value::Null
    }
}

impl Array {
    pub fn new() -> (r: Array)
        ensures
            r.items() == Seq::<Value>::empty(),
    {
        Array { inner: Vec::new() }
    }

    pub fn from_vec(items: Vec<Value>) -> (r: Array)
        ensures
            r.items() == items@,
    {
        Array { inner: items }
    }

    pub fn len(&self) -> (r: usize)
        ensures
            r == self.items().len(),
    {
        self.inner.len()
    }

    pub fn get(&self, i: usize) -> (r: &Value)
        requires
            i < self.items().len(),
        ensures
            *r == self.items()[i as int],
    {
        &self.inner[i]
    }

    pub fn as_vec(&self) -> (r: &Vec<Value>)
        ensures
            r@ == self.items(),
    {
        &self.inner
    }

    pub fn push(&mut self, v: Value)
        ensures
            final(self).items() == old(self).items().push(v),
    {
        self.inner.push(v);
    }

    /// Moves the items out, leaving the array empty.
    pub fn take_items(&mut self) -> (r: Vec<Value>)
        ensures
            r@ == old(self).items(),
            final(self).items() == Seq::<Value>::empty(),
    {
        let mut r: Vec<Value> = Vec::new();
        core::mem::swap(&mut r, &mut self.inner);
        r
    }
}

/// Whether the key `a` sorts before `b`, comparing their UTF-8 bytes.
pub fn key_less(a: &str, b: &str) -> (r: bool)
    ensures
        r == key_lt(a@, b@),
{
    let x = a.as_bytes();
    let y = b.as_bytes();
    let mut i: usize = 0;
    assert(x@.skip(0) =~= x@);
    assert(y@.skip(0) =~= y@);
    while i < x.len() && i < y.len()
        invariant
            i <= x@.len(),
            i <= y@.len(),
            x@ == vstd::utf8::encode_utf8(a@),
            y@ == vstd::utf8::encode_utf8(b@),
            bytes_lt(x@, y@) == bytes_lt(x@.skip(i as int), y@.skip(i as int)),
        decreases x.len() - i,
    {
        if x[i] != y[i] {
            return x[i] < y[i];
        }
        assert(x@.skip(i as int).drop_first() =~= x@.skip(i + 1));
        assert(y@.skip(i as int).drop_first() =~= y@.skip(i + 1));
        i = i + 1;
    }
    i == x.len() && i < y.len()
}

/// Whether two keys are equal, comparing their UTF-8 bytes.
pub fn key_eq(a: &str, b: &str) -> (r: bool)
    ensures
        r == (a@ == b@),
{
    let x = a.as_bytes();
    let y = b.as_bytes();
    proof {
        vstd::utf8::encode_utf8_decode_utf8(a@);
        vstd::utf8::encode_utf8_decode_utf8(b@);
    }
    if x.len() != y.len() {
        return false;
    }
    let mut i: usize = 0;
    while i < x.len()
        invariant
            i <= x@.len(),
            x@.len() == y@.len(),
            x@ == vstd::utf8::encode_utf8(a@),
            y@ == vstd::utf8::encode_utf8(b@),
            forall|j: int| 0 <= j < i ==> x@[j] == y@[j],
        decreases x.len() - i,
    {
        if x[i] != y[i] {
            return false;
        }
        i = i + 1;
    }
    assert(x@ =~= y@);
    true
}

impl Object {
    pub fn new() -> (r: Object)
        ensures
            r.entries() == Seq::<(String, Value)>::empty(),
    {
        Object { inner: Vec::new() }
    }

    pub fn len(&self) -> (r: usize)
        ensures
            r == self.entries().len(),
    {
        self.inner.len()
    }

    /// The entries, whose keys are strictly ascending.
    pub fn as_vec(&self) -> (r: &Vec<(String, Value)>)
        ensures
            r@ == self.entries(),
            sorted_keys(entries_json(self.entries())),
    {
        proof {
            use_type_invariant(self);
        }
        &self.inner
    }


    /// Stores `v` under `k`; a value already stored under an equal key is
    /// replaced, so the later one wins. The keys stay ascending.
    pub fn insert(&mut self, k: String, v: Value)
        ensures
            entries_json(final(self).entries()) == insert_entry(
                entries_json(old(self).entries()),
                k@,
                json_of(v),
            ),
    {
        proof {
            use_type_invariant(&*self);
        }
        let mut inner: Vec<(String, Value)> = Vec::new();
        core::mem::swap(&mut inner, &mut self.inner);
        let ghost es = entries_json(inner@);
        let ghost jv = json_of(v);
        let ghost kv = k@;
        proof {
            lemma_entries_json(inner@);
        }
        let mut lo: usize = 0;
        let mut hi: usize = inner.len();
        while lo < hi
            invariant
                lo <= hi <= inner@.len(),
                kv == k@,
                es == entries_json(inner@),
                es.len() == inner@.len(),
                sorted_keys(es),
                forall|i: int| 0 <= i < inner@.len() ==> #[trigger] es[i] == (inner@[i].0@, json_of(inner@[i].1)),
                forall|i: int| 0 <= i < lo ==> key_lt(#[trigger] es[i].0, kv),
                forall|i: int| hi <= i < es.len() ==> !key_lt(#[trigger] es[i].0, kv),
            decreases hi - lo,
        {
            let mid = lo + (hi - lo) / 2;
            assert(es[mid as int] == (inner@[mid as int].0@, json_of(inner@[mid as int].1)));
            if key_less(inner[mid].0.as_str(), k.as_str()) {
                proof {
                    assert forall|i: int| 0 <= i < mid + 1 implies key_lt(#[trigger] es[i].0, kv) by {
                        if i < mid {
                            lemma_key_trans(es[i].0, es[mid as int].0, kv);
                        }
                    }
                }
                lo = mid + 1;
            } else {
                proof {
                    assert forall|i: int| mid <= i < es.len() implies !key_lt(#[trigger] es[i].0, kv) by {
                        if i > mid && key_lt(es[i].0, kv) {
                            lemma_key_trans(es[mid as int].0, es[i].0, kv);
                        }
                    }
                }
                hi = mid;
            }
        }
        let p = lo;
        proof {
            lemma_insert_at(es, kv, jv, p as int);
            lemma_insert_sorted(es, kv, jv);
        }
        if p < inner.len() && key_eq(inner[p].0.as_str(), k.as_str()) {
            inner.set(p, (k, v));
            proof {
                lemma_entries_json(inner@);
                assert(entries_json(inner@) =~= es.take(p as int) + seq![(kv, jv)] + es.skip(p + 1));
            }
        } else {
            inner.insert(p, (k, v));
            proof {
                lemma_entries_json(inner@);
                assert(entries_json(inner@) =~= es.take(p as int) + seq![(kv, jv)] + es.skip(p as int));
            }
        }
        core::mem::swap(&mut inner, &mut self.inner);
    }
}

/// Where a key goes among entries whose keys below position `p` are smaller
/// and whose key at `p`, if any, is not.
pub proof fn lemma_insert_at(es: Seq<(Seq<char>, Json)>, k: Seq<char>, v: Json, p: int)
    requires
        0 <= p <= es.len(),
        forall|i: int| 0 <= i < p ==> key_lt(#[trigger] es[i].0, k),
        p < es.len() ==> !key_lt(es[p].0, k),
    ensures
        insert_entry(es, k, v) == if p < es.len() && es[p].0 == k {
            es.take(p) + seq![(k, v)] + es.skip(p + 1)
        } else {
            es.take(p) + seq![(k, v)] + es.skip(p)
        },
    decreases p,
{
    if p == 0 {
        assert(es.take(0) + seq![(k, v)] + es.skip(1) =~= seq![(k, v)] + es.drop_first());
        assert(es.take(0) + seq![(k, v)] + es.skip(0) =~= seq![(k, v)] + es);
        if es.len() > 0 && es[0].0 != k {
            lemma_key_total(k, es[0].0);
        }
    } else {
        lemma_key_asym(es[0].0, k);
        let rest = es.drop_first();
        assert forall|i: int| 0 <= i < p - 1 implies key_lt(#[trigger] rest[i].0, k) by {
            assert(rest[i] == es[i + 1]);
        }
        lemma_insert_at(rest, k, v, p - 1);
        if p < es.len() && es[p].0 == k {
            assert(seq![es[0]] + (rest.take(p - 1) + seq![(k, v)] + rest.skip(p)) =~= es.take(p)
                + seq![(k, v)] + es.skip(p + 1));
        } else {
            assert(seq![es[0]] + (rest.take(p - 1) + seq![(k, v)] + rest.skip(p - 1)) =~= es.take(
                p,
            ) + seq![(k, v)] + es.skip(p));
        }
    }
}

/// Taking out an entry keeps the keys ascending.
proof fn lemma_remove_sorted(es: Seq<(String, Value)>, i: int)
    requires
        0 <= i < es.len(),
        sorted_keys(entries_json(es)),
    ensures
        sorted_keys(entries_json(es.remove(i))),
{
    let r = es.remove(i);
    lemma_entries_json(es);
    lemma_entries_json(r);
    let a = entries_json(es);
    let b = entries_json(r);
    assert forall|x: int, y: int| 0 <= x < y < b.len() implies key_lt(
        #[trigger] b[x].0,
        #[trigger] b[y].0,
    ) by {
        let x2 = if x < i { x } else { x + 1 };
        let y2 = if y < i { y } else { y + 1 };
        assert(b[x] == a[x2]);
        assert(b[y] == a[y2]);
    }
}

/// The value of the first entry whose key is `k`.
pub open spec fn first_with_key(es: Seq<(String, Value)>, k: Seq<char>) -> Option<Value>
    decreases es.len(),
{
    if es.len() == 0 {
        None
    } else if es[0].0@ == k {
        Some(es[0].1)
    } else {
        first_with_key(es.drop_first(), k)
    }
}

/// Looking a key up among an object's entries agrees with the model.
pub proof fn lemma_first_with_key(es: Seq<(String, Value)>, k: Seq<char>)
    ensures
        match first_with_key(es, k) {
            Some(v) => crate::model::lookup(entries_json(es), k) == Some(json_of(v)),
            None => crate::model::lookup(entries_json(es), k) is None,
        },
    decreases es.len(),
{
    lemma_entries_json(es);
    if es.len() > 0 {
        lemma_first_with_key(es.drop_first(), k);
        lemma_entries_json(es.drop_first());
        assert(entries_json(es).drop_first() =~= entries_json(es.drop_first()));
    }
}

impl Object {
    /// The value stored under `k`.
    pub open spec fn get_spec(&self, k: Seq<char>) -> Option<Value> {
        first_with_key(self.entries(), k)
    }

    /// The value stored under `k`.
    pub fn get(&self, k: &str) -> (r: Option<&Value>)
        ensures
            match r {
                Some(v) => self.get_spec(k@) == Some(*v),
                None => self.get_spec(k@) is None,
            },
    {
        let mut i: usize = 0;
        assert(self.inner@.skip(0) =~= self.inner@);
        while i < self.inner.len()
            invariant
                i <= self.inner@.len(),
                first_with_key(self.inner@, k@) == first_with_key(self.inner@.skip(i as int), k@),
            decreases self.inner.len() - i,
        {
            assert(self.inner@.skip(i as int).drop_first() =~= self.inner@.skip(i + 1));
            if key_eq(self.inner[i].0.as_str(), k) {
                return Some(&self.inner[i].1);
            }
            i = i + 1;
        }
        None
    }

    /// Takes out the first entry stored under `k` and returns its value.
    pub fn remove(&mut self, k: &str) -> (r: Option<Value>)
        ensures
            r == old(self).get_spec(k@),
            r is None ==> final(self).entries() == old(self).entries(),
            r is Some ==> exists|i: int|
                0 <= i < old(self).entries().len() && #[trigger] old(self).entries()[i].0@ == k@
                    && final(self).entries() == old(self).entries().remove(i),
    {
        let mut i: usize = 0;
        assert(self.inner@.skip(0) =~= self.inner@);
        while i < self.inner.len()
            invariant
                i <= self.inner@.len(),
                self.inner@ == old(self).entries(),
                first_with_key(self.inner@, k@) == first_with_key(self.inner@.skip(i as int), k@),
            decreases self.inner.len() - i,
        {
            assert(self.inner@.skip(i as int).drop_first() =~= self.inner@.skip(i + 1));
            if key_eq(self.inner[i].0.as_str(), k) {
                proof {
                    use_type_invariant(&*self);
                    lemma_remove_sorted(self.inner@, i as int);
                }
                let mut inner: Vec<(String, Value)> = Vec::new();
                core::mem::swap(&mut inner, &mut self.inner);
                let e = inner.remove(i);
                core::mem::swap(&mut inner, &mut self.inner);
                return Some(e.1);
            }
            i = i + 1;
        }
        None
    }

    /// Moves the entries out, leaving the object empty.
    pub fn take_entries(&mut self) -> (r: Vec<(String, Value)>)
        ensures
            r@ == old(self).entries(),
            final(self).entries() == Seq::<(String, Value)>::empty(),
    {
        let mut r: Vec<(String, Value)> = Vec::new();
        core::mem::swap(&mut r, &mut self.inner);
        r
    }
}

/// The number of nodes in a value tree.
pub open spec fn value_size(v: Value) -> nat
    decreases v, 0int,
{
    match v {
        Value::Array(a) => 1 + values_size(a.items()),
        Value::Object(o) => 1 + entries_size(o.entries()),
        _ => 1,
    }
}

pub open spec fn values_size(s: Seq<Value>) -> nat
    decreases s, 1int,
{
    if s.len() == 0 {
        0
    } else {
        values_size(s.subrange(0, s.len() - 1)) + value_size(s[s.len() - 1])
    }
}

pub open spec fn entries_size(s: Seq<(String, Value)>) -> nat
    decreases s, 1int,
{
    if s.len() == 0 {
        0
    } else {
        entries_size(s.subrange(0, s.len() - 1)) + value_size(s[s.len() - 1].1)
    }
}

/// Releases every value of `stack` and all that they hold with a worklist,
/// so that no nesting depth reaches the call stack.
pub fn release_all(stack: Vec<Value>) {
    let mut stack = stack;
    while stack.len() > 0
        decreases values_size(stack@),
    {
        let ghost before = stack@;
        let top = stack.pop();
        proof {
            assert(values_size(before) == values_size(stack@) + value_size(top->0));
        }
        match top {
            Some(Value::Array(mut a)) => {
                assert(value_size(Value::Array(a)) == 1 + values_size(a.items()));
                let mut children = a.take_items();
                let ghost total = values_size(stack@) + values_size(children@);
                while children.len() > 0
                    invariant
                        values_size(stack@) + values_size(children@) == total,
                    decreases children.len(),
                {
                    let ghost s0 = stack@;
                    match children.pop() {
                        Some(c) => {
                            stack.push(c);
                            assert(stack@.subrange(0, stack@.len() - 1) =~= s0);
                        },
                        None => {},
                    }
                }
            },
            Some(Value::Object(mut o)) => {
                assert(value_size(Value::Object(o)) == 1 + entries_size(o.entries()));
                let mut children = o.take_entries();
                let ghost total = values_size(stack@) + entries_size(children@);
                while children.len() > 0
                    invariant
                        values_size(stack@) + entries_size(children@) == total,
                    decreases children.len(),
                {
                    let ghost s0 = stack@;
                    match children.pop() {
                        Some(c) => {
                            stack.push(c.1);
                            assert(stack@.subrange(0, stack@.len() - 1) =~= s0);
                        },
                        None => {},
                    }
                }
            },
            _ => {},
        }
    }
}

/// Releases the values of a list of entries, as `release_all` does.
pub fn release_entries(entries: Vec<(String, Value)>) {
    let mut entries = entries;
    let mut stack: Vec<Value> = Vec::new();
    while entries.len() > 0
        decreases entries.len(),
    {
        match entries.pop() {
            Some(e) => stack.push(e.1),
            None => {},
        }
    }
    release_all(stack);
}

/// Releases a value tree without recursion, however deeply it is nested.
pub fn safely(value: Value) {
    let mut stack: Vec<Value> = Vec::new();
    stack.push(value);
    release_all(stack);
}

impl Drop for Array {
    /// Hands the items to the worklist of `release_all`.
    #[verifier::external_body]
    fn drop(&mut self)
        opens_invariants none
        no_unwind
    {
        release_all(core::mem::take(&mut self.inner))
    }
}

impl Drop for Object {
    /// Hands the values to the worklist of `release_all`.
    #[verifier::external_body]
    fn drop(&mut self)
        opens_invariants none
        no_unwind
    {
        release_entries(core::mem::take(&mut self.inner))
    }
}

} // verus!
