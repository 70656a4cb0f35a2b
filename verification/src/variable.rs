//! JMESPath values: the executable [`Variable`] and its mathematical model
//! [`Json`].

use vstd::prelude::*;
use crate::number::{Float, num_order, compare_parts};
use crate::text::{Order, text_order, copy_string, compare_strings, same_string};

verus! {

/// A handle to a compiled expression, as carried by an expression reference
/// (`&expr`).  The [`Interpreter`](crate::registry::Interpreter) that evaluates
/// function calls knows what each handle stands for.
#[derive(PartialEq, Eq, Structural, Clone, Copy, Debug)]
pub struct Ast {
    pub id: usize,
}

/// A JMESPath value.  Object members are held in a vector of key and value
/// pairs in increasing key order (the order of a `BTreeMap<String, _>`).  The
/// type itself does not enforce that order; [`valid`] states it, and every
/// built-in function maps valid arguments to a valid result.
#[derive(Debug)]
pub enum Variable {
    Null,
    String(String),
    Bool(bool),
    I64(i64),
    U64(u64),
    F64(Float),
    Array(Vec<Variable>),
    Object(Vec<(String, Variable)>),
    Expref(Ast),
}

/// The mathematical model of a [`Variable`]: strings are character sequences.
pub enum Json {
    Null,
    Str(Seq<char>),
    Bool(bool),
    I64(i64),
    U64(u64),
    F64(Float),
    Arr(Seq<Json>),
    Obj(Seq<(Seq<char>, Json)>),
    Expref(Ast),
}

/// The JMESPath type of a value.
#[derive(PartialEq, Eq, Structural, Clone, Copy, Debug)]
pub enum JsonType {
    Null,
    String,
    Number,
    Boolean,
    Array,
    Object,
    Expref,
}

impl View for Variable {
    type V = Json;

    open spec fn view(&self) -> Json
        decreases self, 0nat,
    {
        match self {
            Variable::Null => Json::Null,
            Variable::String(s) => Json::Str(s@),
            Variable::Bool(b) => Json::Bool(*b),
            Variable::I64(n) => Json::I64(*n),
            Variable::U64(n) => Json::U64(*n),
            Variable::F64(f) => Json::F64(*f),
            Variable::Array(vs) => {
                proof {
                    assert(decreases_to!(*vs => vs@));
                }
                Json::Arr(views(vs@))
            },
            Variable::Object(es) => {
                proof {
                    assert(decreases_to!(*es => es@));
                }
                Json::Obj(entry_views(es@))
            },
            Variable::Expref(a) => Json::Expref(*a),
        }
    }
}

/// The models of a sequence of values.
pub open spec fn views(s: Seq<Variable>) -> Seq<Json>
    decreases s, 1nat,
{
    if s.len() == 0 {
        Seq::empty()
    } else {
        proof {
            assert(decreases_to!(s => s[s.len() - 1]));
            assert(decreases_to!(s => s.subrange(0, s.len() - 1)));
        }
        views(s.subrange(0, s.len() - 1)).push(s[s.len() - 1].view())
    }
}

/// The models of a sequence of object members.
pub open spec fn entry_views(es: Seq<(String, Variable)>) -> Seq<(Seq<char>, Json)>
    decreases es, 1nat,
{
    if es.len() == 0 {
        Seq::empty()
    } else {
        proof {
            assert(decreases_to!(es => es[es.len() - 1]));
            assert(decreases_to!(es[es.len() - 1] => es[es.len() - 1].1));
            assert(decreases_to!(es => es.subrange(0, es.len() - 1)));
        }
        entry_views(es.subrange(0, es.len() - 1)).push(
            (es[es.len() - 1].0@, es[es.len() - 1].1.view()),
        )
    }
}

/// `views` keeps the length and holds the model of each element.
pub broadcast proof fn lemma_views(s: Seq<Variable>)
    ensures
        #[trigger] views(s).len() == s.len(),
        forall|i: int| 0 <= i < s.len() ==> #[trigger] views(s)[i] == s[i]@,
    decreases s.len(),
{
    if s.len() > 0 {
        let p = s.subrange(0, s.len() - 1);
        lemma_views(p);
        assert(views(s) == views(p).push(s[s.len() - 1]@));
        assert forall|i: int| 0 <= i < s.len() implies #[trigger] views(s)[i] == s[i]@ by {
            if i < s.len() - 1 {
                assert(p[i] == s[i]);
            }
        }
    }
}

/// `entry_views` keeps the length and holds the model of each member.
pub broadcast proof fn lemma_entry_views(es: Seq<(String, Variable)>)
    ensures
        #[trigger] entry_views(es).len() == es.len(),
        forall|i: int|
            0 <= i < es.len() ==> #[trigger] entry_views(es)[i] == (es[i].0@, es[i].1@),
    decreases es.len(),
{
    if es.len() > 0 {
        let p = es.subrange(0, es.len() - 1);
        lemma_entry_views(p);
        assert(entry_views(es) == entry_views(p).push((es[es.len() - 1].0@, es[es.len() - 1].1@)));
        assert forall|i: int| 0 <= i < es.len() implies #[trigger] entry_views(es)[i] == (
            es[i].0@,
            es[i].1@,
        ) by {
            if i < es.len() - 1 {
                assert(p[i] == es[i]);
            }
        }
    }
}

/// The type of a value.
pub open spec fn type_of(j: Json) -> JsonType {
    match j {
        Json::Null => JsonType::Null,
        Json::Str(_) => JsonType::String,
        Json::Bool(_) => JsonType::Boolean,
        Json::I64(_) => JsonType::Number,
        Json::U64(_) => JsonType::Number,
        Json::F64(_) => JsonType::Number,
        Json::Arr(_) => JsonType::Array,
        Json::Obj(_) => JsonType::Object,
        Json::Expref(_) => JsonType::Expref,
    }
}

/// The name of a type, as JMESPath's `type` function reports it.
pub open spec fn type_label(t: JsonType) -> Seq<char> {
    match t {
        JsonType::Null => "null"@,
        JsonType::String => "string"@,
        JsonType::Number => "number"@,
        JsonType::Boolean => "boolean"@,
        JsonType::Array => "array"@,
        JsonType::Object => "object"@,
        JsonType::Expref => "expref"@,
    }
}

/// Whether a value is a number.
pub open spec fn is_number(j: Json) -> bool {
    type_of(j) == JsonType::Number
}

/// The mantissa of a number (an integer is its own mantissa).
pub open spec fn num_mantissa(j: Json) -> int {
    match j {
        Json::I64(n) => n as int,
        Json::U64(n) => n as int,
        Json::F64(f) => f.m() as int,
        _ => 0,
    }
}

/// The power-of-two exponent of a number (zero for an integer).
pub open spec fn num_exponent(j: Json) -> int {
    match j {
        Json::F64(f) => f.e() as int,
        _ => 0,
    }
}

/// The order of two values: strings by [`text_order`], numbers by their exact
/// values, and everything else, including two values of different types, as
/// equal.
pub open spec fn json_order(a: Json, b: Json) -> Order {
    if type_of(a) != type_of(b) {
        Order::Equal
    } else {
        match (a, b) {
            (Json::Str(s), Json::Str(t)) => text_order(s, t),
            _ => if is_number(a) {
                num_order(num_mantissa(a), num_exponent(a), num_mantissa(b), num_exponent(b))
            } else {
                Order::Equal
            },
        }
    }
}

/// The keys of an object's members, in order.
pub open spec fn entry_keys(es: Seq<(Seq<char>, Json)>) -> Seq<Json> {
    Seq::new(es.len(), |i: int| Json::Str(es[i].0))
}

/// The values of an object's members, in order.
pub open spec fn entry_values(es: Seq<(Seq<char>, Json)>) -> Seq<Json> {
    Seq::new(es.len(), |i: int| es[i].1)
}

/// Members whose keys increase strictly (so that no key occurs twice), as
/// the members of a map keyed by string come.
pub open spec fn keys_increasing(es: Seq<(Seq<char>, Json)>) -> bool {
    forall|i: int, j: int| 0 <= i < j < es.len() ==> text_order(#[trigger] es[i].0, #[trigger] es[j].0) == Order::Less
}

/// A value whose objects, at any depth, have keys that increase strictly.
pub open spec fn valid(j: Json) -> bool
    decreases j,
{
    match j {
        Json::Arr(a) => forall|i: int| 0 <= i < a.len() ==> valid(#[trigger] a[i]),
        Json::Obj(es) => keys_increasing(es) && forall|i: int| 0 <= i < es.len() ==> valid(#[trigger] es[i].1),
        _ => true,
    }
}

/// The name of a type as a string.
pub fn type_label_string(t: JsonType) -> (r: String)
    ensures
        r@ == type_label(t),
{
    match t {
        JsonType::Null => String::from_str("null"),
        JsonType::String => String::from_str("string"),
        JsonType::Number => String::from_str("number"),
        JsonType::Boolean => String::from_str("boolean"),
        JsonType::Array => String::from_str("array"),
        JsonType::Object => String::from_str("object"),
        JsonType::Expref => String::from_str("expref"),
    }
}

impl Variable {
    /// The type of this value.
    pub fn get_type(&self) -> (r: JsonType)
        ensures
            r == type_of(self@),
    {
        match self {
            Variable::Null => JsonType::Null,
            Variable::String(_) => JsonType::String,
            Variable::Bool(_) => JsonType::Boolean,
            Variable::I64(_) => JsonType::Number,
            Variable::U64(_) => JsonType::Number,
            Variable::F64(_) => JsonType::Number,
            Variable::Array(_) => JsonType::Array,
            Variable::Object(_) => JsonType::Object,
            Variable::Expref(_) => JsonType::Expref,
        }
    }

    /// The name of this value's type.
    pub fn type_string(&self) -> (r: String)
        ensures
            r@ == type_label(type_of(self@)),
    {
        type_label_string(self.get_type())
    }

    /// Whether this value is `null`.
    pub fn is_null(&self) -> (r: bool)
        ensures
            r == (self@ is Null),
    {
        match self {
            Variable::Null => true,
            _ => false,
        }
    }

    /// A copy of this value.
    #[verifier::loop_isolation(false)]
    pub fn deep_clone(&self) -> (r: Variable)
        ensures
            r@ == self@,
        decreases self,
    {
        match self {
            Variable::Null => Variable::Null,
            Variable::String(s) => Variable::String(copy_string(s)),
            Variable::Bool(b) => Variable::Bool(*b),
            Variable::I64(n) => Variable::I64(*n),
            Variable::U64(n) => Variable::U64(*n),
            Variable::F64(f) => Variable::F64(*f),
            Variable::Expref(a) => Variable::Expref(*a),
            Variable::Array(vs) => {
                let mut out: Vec<Variable> = Vec::new();
                let mut i: usize = 0;
                while i < vs.len()
                    invariant
                        i <= vs.len(),
                        out.len() == i,
                        forall|j: int| 0 <= j < i ==> (#[trigger] out@[j])@ == vs@[j]@,
                    decreases vs.len() - i,
                {
                    proof {
                        assert(decreases_to!(vs@ => vs@[i as int]));
                        assert(decreases_to!(*vs => vs@));
                        assert(decreases_to!(self => *vs));
                    }
                    let c = vs[i].deep_clone();
                    out.push(c);
                    i = i + 1;
                }
                proof {
                    lemma_views(out@);
                    lemma_views(vs@);
                    assert(views(out@) =~= views(vs@));
                }
                Variable::Array(out)
            },
            Variable::Object(es) => {
                let mut out: Vec<(String, Variable)> = Vec::new();
                let mut i: usize = 0;
                while i < es.len()
                    invariant
                        i <= es.len(),
                        out.len() == i,
                        forall|j: int|
                            0 <= j < i ==> (#[trigger] out@[j]).0@ == es@[j].0@ && out@[j].1@
                                == es@[j].1@,
                    decreases es.len() - i,
                {
                    proof {
                        assert(decreases_to!(es@[i as int] => es@[i as int].1));
                        assert(decreases_to!(es@ => es@[i as int]));
                        assert(decreases_to!(*es => es@));
                        assert(decreases_to!(self => *es));
                    }
                    let k = copy_string(&es[i].0);
                    let v = es[i].1.deep_clone();
                    out.push((k, v));
                    i = i + 1;
                }
                proof {
                    lemma_entry_views(out@);
                    lemma_entry_views(es@);
                    assert(entry_views(out@) =~= entry_views(es@));
                }
                Variable::Object(out)
            },
        }
    }

    /// Whether two values are equal: same variant, equal contents.
    pub fn deep_equals(&self, other: &Variable) -> (r: bool)
        ensures
            r == (self@ == other@),
        decreases self, 1nat,
    {
        match (self, other) {
            (Variable::Null, Variable::Null) => true,
            (Variable::String(a), Variable::String(b)) => same_string(a, b),
            (Variable::Bool(a), Variable::Bool(b)) => *a == *b,
            (Variable::I64(a), Variable::I64(b)) => *a == *b,
            (Variable::U64(a), Variable::U64(b)) => *a == *b,
            (Variable::F64(a), Variable::F64(b)) => {
                proof {
                    Float::lemma_parts(*a, *b);
                }
                a.mantissa() == b.mantissa() && a.exponent() == b.exponent()
            },
            (Variable::Expref(a), Variable::Expref(b)) => a.id == b.id,
            (Variable::Array(a), Variable::Array(b)) => {
                proof {
                    assert(decreases_to!(self => *a));
                }
                elements_equal(a, b)
            },
            (Variable::Object(a), Variable::Object(b)) => {
                proof {
                    assert(decreases_to!(self => *a));
                }
                members_equal(a, b)
            },
            _ => false,
        }
    }

    /// The mantissa and exponent of a number, for exact comparison.
    fn number_parts(&self) -> (r: (i128, i64))
        requires
            is_number(self@),
        ensures
            r.0 == num_mantissa(self@),
            r.1 == num_exponent(self@),
            i64::MIN <= r.0 <= u64::MAX,
            i32::MIN <= r.1 <= i32::MAX,
    {
        match self {
            Variable::I64(n) => (*n as i128, 0),
            Variable::U64(n) => (*n as i128, 0),
            Variable::F64(f) => (f.mantissa() as i128, f.exponent() as i64),
            _ => (0, 0),
        }
    }

    /// Compares two values by [`json_order`].
    pub fn compare(&self, other: &Variable) -> (r: Order)
        ensures
            r == json_order(self@, other@),
    {
        let ta = self.get_type();
        let tb = other.get_type();
        if ta != tb {
            return Order::Equal;
        }
        match (self, other) {
            (Variable::String(a), Variable::String(b)) => compare_strings(a, b),
            _ => {
                if ta == JsonType::Number {
                    let (m1, e1) = self.number_parts();
                    let (m2, e2) = other.number_parts();
                    compare_parts(m1, e1, m2, e2)
                } else {
                    Order::Equal
                }
            },
        }
    }
}


/// Whether two sequences of values are equal element by element.
fn elements_equal(a: &Vec<Variable>, b: &Vec<Variable>) -> (r: bool)
    ensures
        r == (views(a@) == views(b@)),
    decreases a, 0nat,
{
    broadcast use lemma_views;

    if a.len() != b.len() {
        assert(views(a@).len() != views(b@).len());
        return false;
    }
    let mut i: usize = 0;
    while i < a.len()
        invariant
            i <= a.len(),
            a.len() == b.len(),
            forall|j: int| 0 <= j < i ==> views(a@)[j] == views(b@)[j],
        decreases a.len() - i,
    {
        proof {
            lemma_views(a@);
            lemma_views(b@);
            assert(decreases_to!(a@ => a@[i as int]));
            assert(decreases_to!(*a => a@));
        }
        if !a[i].deep_equals(&b[i]) {
            assert(views(a@)[i as int] != views(b@)[i as int]);
            return false;
        }
        i = i + 1;
    }
    proof {
        lemma_views(a@);
        lemma_views(b@);
    }
    assert(views(a@) =~= views(b@));
    true
}

/// Whether two sequences of object members are equal member by member.
fn members_equal(a: &Vec<(String, Variable)>, b: &Vec<(String, Variable)>) -> (r: bool)
    ensures
        r == (entry_views(a@) == entry_views(b@)),
    decreases a, 0nat,
{
    broadcast use lemma_entry_views;

    if a.len() != b.len() {
        assert(entry_views(a@).len() != entry_views(b@).len());
        return false;
    }
    let mut i: usize = 0;
    while i < a.len()
        invariant
            i <= a.len(),
            a.len() == b.len(),
            forall|j: int| 0 <= j < i ==> entry_views(a@)[j] == entry_views(b@)[j],
        decreases a.len() - i,
    {
        proof {
            lemma_entry_views(a@);
            lemma_entry_views(b@);
            assert(decreases_to!(a@[i as int] => a@[i as int].1));
            assert(decreases_to!(a@ => a@[i as int]));
            assert(decreases_to!(*a => a@));
        }
        let same_key = same_string(&a[i].0, &b[i].0);
        if !same_key {
            assert(entry_views(a@)[i as int].0 != entry_views(b@)[i as int].0);
            return false;
        }
        if !a[i].1.deep_equals(&b[i].1) {
            assert(entry_views(a@)[i as int].1 != entry_views(b@)[i as int].1);
            return false;
        }
        assert(entry_views(a@)[i as int] == entry_views(b@)[i as int]);
        i = i + 1;
    }
    proof {
        lemma_entry_views(a@);
        lemma_entry_views(b@);
    }
    assert(entry_views(a@) =~= entry_views(b@));
    true
}

} // verus!
