//! The canonical value model: the tagged union every format parses
//! into and formats from.
//!
//! Numbers are carried as their decimal literal text, validated by
//! [`valid_number_text`]; the text form is what the grammar reads and
//! writes, and it keeps the full information of the literal.  Objects
//! are ordered lists of members with unique keys, so emission is
//! stable and insertion order is preserved.

use vstd::prelude::*;

verus! {

/// A canonical configuration value.
#[derive(Debug)]
pub enum Value {
    /// Text, stored verbatim (the grammar has no escape sequences).
    Str(String),
    /// A number, as the decimal literal the grammar accepts.
    Num(String),
    Bool(bool),
    Null,
    /// An ordered sequence of values.
    Arr(Vec<Value>),
    /// An ordered key/value mapping; keys are unique.
    Obj(Vec<Member>),
}

/// One key/value entry of an object.
#[derive(Debug)]
pub struct Member {
    pub key: String,
    pub value: Value,
}

/// The mathematical model of a [`Value`].
pub enum SpecVal {
    Str(Seq<char>),
    Num(Seq<char>),
    Bool(bool),
    Null,
    Arr(Seq<SpecVal>),
    Obj(Seq<(Seq<char>, SpecVal)>),
}

/// Model of a [`Value`].
pub open spec fn val_view(v: Value) -> SpecVal
    decreases v,
{
    match v {
        Value::Str(s) => SpecVal::Str(s@),
        Value::Num(s) => SpecVal::Num(s@),
        Value::Bool(b) => SpecVal::Bool(b),
        Value::Null => SpecVal::Null,
        Value::Arr(vs) => SpecVal::Arr(arr_view(vs@)),
        Value::Obj(ms) => SpecVal::Obj(members_view(ms@)),
    }
}

/// Model of a sequence of array elements.
pub open spec fn arr_view(vs: Seq<Value>) -> Seq<SpecVal>
    decreases vs,
{
    if vs.len() == 0 {
        Seq::empty()
    } else {
        seq![val_view(vs[0])] + arr_view(vs.drop_first())
    }
}

/// Model of a sequence of object members.
pub open spec fn members_view(ms: Seq<Member>) -> Seq<(Seq<char>, SpecVal)>
    decreases ms,
{
    if ms.len() == 0 {
        Seq::empty()
    } else {
        seq![(ms[0].key@, val_view(ms[0].value))] + members_view(ms.drop_first())
    }
}

impl View for Value {
    type V = SpecVal;

    open spec fn view(&self) -> SpecVal {
        val_view(*self)
    }
}

impl View for Member {
    type V = (Seq<char>, SpecVal);

    open spec fn view(&self) -> (Seq<char>, SpecVal) {
        (self.key@, val_view(self.value))
    }
}

/// A whole configuration document: the members of the root object.
#[derive(Debug)]
pub struct ConfigValue {
    pub value: Vec<Member>,
}

impl View for ConfigValue {
    type V = Seq<(Seq<char>, SpecVal)>;

    open spec fn view(&self) -> Seq<(Seq<char>, SpecVal)> {
        members_view(self.value@)
    }
}

/// The digits `0` through `9`.
pub open spec fn is_digit_char(c: char) -> bool {
    0x30 <= (c as u32) && (c as u32) <= 0x39
}

/// A character that may continue a number literal.
pub open spec fn is_number_body_char(c: char) -> bool {
    is_digit_char(c) || c == '.'
}

/// The texts the grammar accepts as a number literal: an optional
/// leading minus sign, then digits with at most one decimal point and
/// at least one digit.
pub open spec fn valid_number_text(s: Seq<char>) -> bool {
    &&& s.len() >= 1
    &&& (is_digit_char(s[0]) || s[0] == '-')
    &&& (forall|i: int| 1 <= i < s.len() ==> is_number_body_char(#[trigger] s[i]))
    &&& (exists|i: int| 0 <= i < s.len() && is_digit_char(#[trigger] s[i]))
    &&& (forall|i: int, j: int|
        0 <= i < j < s.len() && #[trigger] s[i] == '.' ==> #[trigger] s[j] != '.')
}

/// Whether a key already occurs in a member sequence.
pub open spec fn spec_has_key(ms: Seq<(Seq<char>, SpecVal)>, k: Seq<char>) -> bool {
    exists|i: int| 0 <= i < ms.len() && #[trigger] ms[i].0 == k
}

/// Keys of an object model are pairwise distinct.
pub open spec fn keys_unique(ms: Seq<(Seq<char>, SpecVal)>) -> bool {
    forall|i: int, j: int| 0 <= i < j < ms.len() ==> #[trigger] ms[i].0 != #[trigger] ms[j].0
}

/// Well-formedness of a value model: number literals are texts the
/// grammar accepts, and object keys are unique.
pub open spec fn wf_val(v: SpecVal) -> bool
    decreases v,
{
    match v {
        SpecVal::Str(_) => true,
        SpecVal::Num(t) => valid_number_text(t),
        SpecVal::Bool(_) => true,
        SpecVal::Null => true,
        SpecVal::Arr(es) => wf_arr(es),
        SpecVal::Obj(ms) => keys_unique(ms) && wf_members(ms),
    }
}

/// Well-formedness of every element of an array model.
pub open spec fn wf_arr(es: Seq<SpecVal>) -> bool
    decreases es,
{
    if es.len() == 0 {
        true
    } else {
        wf_val(es[0]) && wf_arr(es.drop_first())
    }
}

/// Well-formedness of every member of an object model.
pub open spec fn wf_members(ms: Seq<(Seq<char>, SpecVal)>) -> bool
    decreases ms,
{
    if ms.len() == 0 {
        true
    } else {
        wf_val(ms[0].1) && wf_members(ms.drop_first())
    }
}

/// Deep structural equality of two values, decided executably.
pub fn value_eq(a: &Value, b: &Value) -> (r: bool)
    ensures
        r == (a@ == b@),
    decreases *a,
{
    match (a, b) {
        (Value::Str(x), Value::Str(y)) => *x == *y,
        (Value::Num(x), Value::Num(y)) => *x == *y,
        (Value::Bool(x), Value::Bool(y)) => *x == *y,
        (Value::Null, Value::Null) => true,
        (Value::Arr(xs), Value::Arr(ys)) => arr_eq(xs, ys),
        (Value::Obj(xs), Value::Obj(ys)) => members_eq(xs, ys),
        _ => {
            proof {
                lemma_distinct_shapes(a, b);
            }
            false
        },
    }
}

/// Values built by different constructors have different models.
proof fn lemma_distinct_shapes(a: &Value, b: &Value)
    requires
        !(a is Str && b is Str),
        !(a is Num && b is Num),
        !(a is Bool && b is Bool),
        !(a is Null && b is Null),
        !(a is Arr && b is Arr),
        !(a is Obj && b is Obj),
    ensures
        a@ != b@,
{
    match *a {
        Value::Str(_) => assert(a@ is Str),
        Value::Num(_) => assert(a@ is Num),
        Value::Bool(_) => assert(a@ is Bool),
        Value::Null => assert(a@ is Null),
        Value::Arr(_) => assert(a@ is Arr),
        Value::Obj(_) => assert(a@ is Obj),
    }
    match *b {
        Value::Str(_) => assert(b@ is Str),
        Value::Num(_) => assert(b@ is Num),
        Value::Bool(_) => assert(b@ is Bool),
        Value::Null => assert(b@ is Null),
        Value::Arr(_) => assert(b@ is Arr),
        Value::Obj(_) => assert(b@ is Obj),
    }
}

/// Elementwise equality of two element vectors.
fn arr_eq(xs: &Vec<Value>, ys: &Vec<Value>) -> (r: bool)
    ensures
        r == (arr_view(xs@) == arr_view(ys@)),
    decreases xs@,
{
    proof {
        lemma_arr_view_len(xs@);
        lemma_arr_view_len(ys@);
    }
    if xs.len() != ys.len() {
        return false;
    }
    let mut i: usize = 0;
    while i < xs.len()
        invariant
            xs@.len() == ys@.len(),
            i <= xs.len(),
            forall|m: int| 0 <= m < i ==> arr_view(xs@)[m] == arr_view(ys@)[m],
        decreases xs.len() - i,
    {
        proof {
            lemma_arr_view_index(xs@, i as int);
            lemma_arr_view_index(ys@, i as int);
        }
        if !value_eq(&xs[i], &ys[i]) {
            proof {
                lemma_arr_view_len(xs@);
                lemma_arr_view_len(ys@);
            }
            return false;
        }
        i += 1;
    }
    proof {
        lemma_arr_view_len(xs@);
        lemma_arr_view_len(ys@);
        assert(arr_view(xs@) =~= arr_view(ys@));
    }
    true
}

/// Memberwise equality of two member vectors.
fn members_eq(xs: &Vec<Member>, ys: &Vec<Member>) -> (r: bool)
    ensures
        r == (members_view(xs@) == members_view(ys@)),
    decreases xs@,
{
    proof {
        lemma_members_view_len(xs@);
        lemma_members_view_len(ys@);
    }
    if xs.len() != ys.len() {
        return false;
    }
    let mut i: usize = 0;
    while i < xs.len()
        invariant
            xs@.len() == ys@.len(),
            i <= xs.len(),
            forall|m: int| 0 <= m < i ==> members_view(xs@)[m] == members_view(ys@)[m],
        decreases xs.len() - i,
    {
        proof {
            lemma_members_view_index(xs@, i as int);
            lemma_members_view_index(ys@, i as int);
        }
        let keys_agree = xs[i].key == ys[i].key;
        if !keys_agree || !value_eq(&xs[i].value, &ys[i].value) {
            proof {
                lemma_members_view_len(xs@);
                lemma_members_view_len(ys@);
            }
            return false;
        }
        i += 1;
    }
    proof {
        lemma_members_view_len(xs@);
        lemma_members_view_len(ys@);
        assert(members_view(xs@) =~= members_view(ys@));
    }
    true
}

/// An array model grows pointwise under push.
pub proof fn lemma_arr_view_push(vs: Seq<Value>, v: Value)
    ensures
        arr_view(vs.push(v)) == arr_view(vs).push(val_view(v)),
{
    lemma_arr_view_len(vs.push(v));
    lemma_arr_view_len(vs);
    assert forall|n: int| 0 <= n < arr_view(vs.push(v)).len() implies arr_view(vs.push(v))[n]
        == arr_view(vs).push(val_view(v))[n] by {
        lemma_arr_view_index(vs.push(v), n);
        if n < vs.len() {
            lemma_arr_view_index(vs, n);
        }
    }
    assert(arr_view(vs.push(v)) =~= arr_view(vs).push(val_view(v)));
}

/// An array model has one entry per element vector entry.
pub proof fn lemma_arr_view_len(vs: Seq<Value>)
    ensures
        arr_view(vs).len() == vs.len(),
    decreases vs,
{
    if vs.len() > 0 {
        lemma_arr_view_len(vs.drop_first());
    }
}

/// Each entry of an array model is the model of the matching element.
pub proof fn lemma_arr_view_index(vs: Seq<Value>, i: int)
    requires
        0 <= i < vs.len(),
    ensures
        arr_view(vs).len() == vs.len(),
        arr_view(vs)[i] == val_view(vs[i]),
    decreases vs,
{
    lemma_arr_view_len(vs);
    if i > 0 {
        lemma_arr_view_index(vs.drop_first(), i - 1);
    }
}

/// An object model has one entry per member vector entry.
pub proof fn lemma_members_view_len(ms: Seq<Member>)
    ensures
        members_view(ms).len() == ms.len(),
    decreases ms,
{
    if ms.len() > 0 {
        lemma_members_view_len(ms.drop_first());
    }
}

/// Each entry of an object model is the model of the matching member.
pub proof fn lemma_members_view_index(ms: Seq<Member>, i: int)
    requires
        0 <= i < ms.len(),
    ensures
        members_view(ms).len() == ms.len(),
        members_view(ms)[i] == (ms[i].key@, val_view(ms[i].value)),
    decreases ms,
{
    lemma_members_view_len(ms);
    if i > 0 {
        lemma_members_view_index(ms.drop_first(), i - 1);
    }
}

} // verus!
