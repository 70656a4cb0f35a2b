//! Argument types of JMESPath functions: their names and which values they accept.

use vstd::prelude::*;
use crate::text::{seq_join, join_strings};
use crate::variable::{Variable, Json, JsonType, type_of, is_number, views, lemma_views};

verus! {

/// Represents an argument type.
#[derive(Debug, PartialEq)]
pub enum ArgumentType {
    Any,
    String,
    Number,
    Bool,
    Array,
    Object,
    Null,
    Expref,
    HomogeneousArray(Vec<ArgumentType>),
    OneOf(Vec<ArgumentType>),
    ExprefReturns(Vec<ArgumentType>),
}

/// The model of an [`ArgumentType`].
pub enum ArgSpec {
    Any,
    String,
    Number,
    Bool,
    Array,
    Object,
    Null,
    Expref,
    HomogeneousArray(Seq<ArgSpec>),
    OneOf(Seq<ArgSpec>),
    ExprefReturns(Seq<ArgSpec>),
}

impl View for ArgumentType {
    type V = ArgSpec;

    open spec fn view(&self) -> ArgSpec
        decreases self, 0nat,
    {
        match self {
            ArgumentType::Any => ArgSpec::Any,
            ArgumentType::String => ArgSpec::String,
            ArgumentType::Number => ArgSpec::Number,
            ArgumentType::Bool => ArgSpec::Bool,
            ArgumentType::Array => ArgSpec::Array,
            ArgumentType::Object => ArgSpec::Object,
            ArgumentType::Null => ArgSpec::Null,
            ArgumentType::Expref => ArgSpec::Expref,
            ArgumentType::HomogeneousArray(ts) => {
                proof {
                    assert(decreases_to!(*ts => ts@));
                }
                ArgSpec::HomogeneousArray(arg_views(ts@))
            },
            ArgumentType::OneOf(ts) => {
                proof {
                    assert(decreases_to!(*ts => ts@));
                }
                ArgSpec::OneOf(arg_views(ts@))
            },
            ArgumentType::ExprefReturns(ts) => {
                proof {
                    assert(decreases_to!(*ts => ts@));
                }
                ArgSpec::ExprefReturns(arg_views(ts@))
            },
        }
    }
}

/// The models of a sequence of argument types.
pub open spec fn arg_views(ts: Seq<ArgumentType>) -> Seq<ArgSpec>
    decreases ts, 1nat,
{
    if ts.len() == 0 {
        Seq::empty()
    } else {
        proof {
            assert(decreases_to!(ts => ts[ts.len() - 1]));
            assert(decreases_to!(ts => ts.subrange(0, ts.len() - 1)));
        }
        arg_views(ts.subrange(0, ts.len() - 1)).push(ts[ts.len() - 1]@)
    }
}

/// `arg_views` keeps the length and holds the model of each type.
pub proof fn lemma_arg_views(ts: Seq<ArgumentType>)
    ensures
        arg_views(ts).len() == ts.len(),
        forall|i: int| 0 <= i < ts.len() ==> #[trigger] arg_views(ts)[i] == ts[i]@,
    decreases ts.len(),
{
    if ts.len() > 0 {
        let p = ts.subrange(0, ts.len() - 1);
        lemma_arg_views(p);
        assert(arg_views(ts) == arg_views(p).push(ts[ts.len() - 1]@));
        assert forall|i: int| 0 <= i < ts.len() implies #[trigger] arg_views(ts)[i] == ts[i]@ by {
            if i < ts.len() - 1 {
                assert(p[i] == ts[i]);
            }
        }
    }
}

impl ArgumentType {
    /// A copy of the types of a vector.
    fn copy_all(ts: &Vec<ArgumentType>) -> (r: Vec<ArgumentType>)
        ensures
            arg_views(r@) == arg_views(ts@),
        decreases ts, 0nat,
    {
        let mut out: Vec<ArgumentType> = Vec::new();
        let mut i: usize = 0;
        proof {
            lemma_arg_views(ts@);
        }
        while i < ts.len()
            invariant
                i <= ts.len(),
                out.len() == i,
                forall|j: int| 0 <= j < i ==> (#[trigger] out@[j])@ == ts@[j]@,
            decreases ts.len() - i,
        {
            proof {
                assert(decreases_to!(*ts => ts@));
                assert(decreases_to!(ts@ => ts@[i as int]));
            }
            out.push(ts[i].copy());
            i = i + 1;
        }
        proof {
            lemma_arg_views(out@);
            assert(arg_views(out@) =~= arg_views(ts@));
        }
        out
    }

    /// A copy of this type.
    pub fn copy(&self) -> (r: ArgumentType)
        ensures
            r@ == self@,
        decreases self, 1nat,
    {
        match self {
            ArgumentType::Any => ArgumentType::Any,
            ArgumentType::String => ArgumentType::String,
            ArgumentType::Number => ArgumentType::Number,
            ArgumentType::Bool => ArgumentType::Bool,
            ArgumentType::Array => ArgumentType::Array,
            ArgumentType::Object => ArgumentType::Object,
            ArgumentType::Null => ArgumentType::Null,
            ArgumentType::Expref => ArgumentType::Expref,
            ArgumentType::HomogeneousArray(ts) => ArgumentType::HomogeneousArray(
                ArgumentType::copy_all(ts),
            ),
            ArgumentType::OneOf(ts) => ArgumentType::OneOf(ArgumentType::copy_all(ts)),
            ArgumentType::ExprefReturns(ts) => ArgumentType::ExprefReturns(
                ArgumentType::copy_all(ts),
            ),
        }
    }
}

impl Clone for ArgumentType {
    fn clone(&self) -> (r: Self)
        ensures
            r@ == self@,
    {
        self.copy()
    }
}

/// The text that names an argument type in error messages.
pub open spec fn arg_label(t: ArgSpec) -> Seq<char>
    decreases t, 0nat,
{
    match t {
        ArgSpec::Any => "any"@,
        ArgSpec::String => "string"@,
        ArgSpec::Number => "number"@,
        ArgSpec::Bool => "boolean"@,
        ArgSpec::Array => "array"@,
        ArgSpec::Object => "object"@,
        ArgSpec::Null => "null"@,
        ArgSpec::Expref => "expref"@,
        ArgSpec::ExprefReturns(ts) => {
            seq_join(arg_labels(ts).map_values(|l: Seq<char>| "expref->"@ + l), "|"@)
        },
        ArgSpec::OneOf(ts) => {
            seq_join(arg_labels(ts), "|"@)
        },
        ArgSpec::HomogeneousArray(ts) => {
            "array["@ + seq_join(arg_labels(ts), "|"@) + "]"@
        },
    }
}

/// The labels of a sequence of argument types.
pub open spec fn arg_labels(ts: Seq<ArgSpec>) -> Seq<Seq<char>>
    decreases ts, 1nat,
{
    if ts.len() == 0 {
        Seq::empty()
    } else {
        proof {
            assert(decreases_to!(ts => ts[ts.len() - 1]));
            assert(decreases_to!(ts => ts.subrange(0, ts.len() - 1)));
        }
        arg_labels(ts.subrange(0, ts.len() - 1)).push(arg_label(ts[ts.len() - 1]))
    }
}

/// Whether an argument of type `t` accepts the value `v`.
pub open spec fn accepts(t: ArgSpec, v: Json) -> bool
    decreases t, 0nat,
{
    match t {
        ArgSpec::Any => true,
        ArgSpec::Null => v is Null,
        ArgSpec::String => v is Str,
        ArgSpec::Number => is_number(v),
        ArgSpec::Object => v is Obj,
        ArgSpec::Bool => v is Bool,
        ArgSpec::Expref => v is Expref,
        ArgSpec::ExprefReturns(_) => v is Expref,
        ArgSpec::Array => v is Arr,
        ArgSpec::OneOf(ts) => {
            any_accepts(ts, v)
        },
        ArgSpec::HomogeneousArray(ts) => {
            match v {
                Json::Arr(vals) => vals.len() == 0 || forall|j: int|
                    0 <= j < vals.len() ==> any_accepts(ts, #[trigger] vals[j]) && type_of(vals[j])
                        == type_of(vals[0]),
                _ => false,
            }
        },
    }
}

/// Whether some type of `ts` accepts `v`.
pub open spec fn any_accepts(ts: Seq<ArgSpec>, v: Json) -> bool
    decreases ts, 1nat,
{
    if ts.len() == 0 {
        false
    } else {
        proof {
            assert(decreases_to!(ts => ts[ts.len() - 1]));
            assert(decreases_to!(ts => ts.subrange(0, ts.len() - 1)));
        }
        any_accepts(ts.subrange(0, ts.len() - 1), v) || accepts(ts[ts.len() - 1], v)
    }
}

/// `arg_labels` keeps the length and holds the label of each type.
pub proof fn lemma_arg_labels(ts: Seq<ArgSpec>)
    ensures
        arg_labels(ts).len() == ts.len(),
        forall|i: int| 0 <= i < ts.len() ==> #[trigger] arg_labels(ts)[i] == arg_label(ts[i]),
    decreases ts.len(),
{
    if ts.len() > 0 {
        let p = ts.subrange(0, ts.len() - 1);
        lemma_arg_labels(p);
        assert(arg_labels(ts) == arg_labels(p).push(arg_label(ts[ts.len() - 1])));
        assert forall|i: int| 0 <= i < ts.len() implies #[trigger] arg_labels(ts)[i] == arg_label(
            ts[i],
        ) by {
            if i < ts.len() - 1 {
                assert(p[i] == ts[i]);
            }
        }
    }
}

/// `any_accepts` holds exactly when one of the types accepts the value.
pub proof fn lemma_any_accepts(ts: Seq<ArgSpec>, v: Json)
    ensures
        any_accepts(ts, v) <==> exists|i: int| 0 <= i < ts.len() && #[trigger] accepts(ts[i], v),
    decreases ts.len(),
{
    if ts.len() > 0 {
        let p = ts.subrange(0, ts.len() - 1);
        lemma_any_accepts(p, v);
        assert(any_accepts(ts, v) == (any_accepts(p, v) || accepts(ts[ts.len() - 1], v)));
        if any_accepts(p, v) {
            let i = choose|i: int| 0 <= i < p.len() && #[trigger] accepts(p[i], v);
            assert(ts[i] == p[i]);
        }
        if exists|i: int| 0 <= i < ts.len() && #[trigger] accepts(ts[i], v) {
            let i = choose|i: int| 0 <= i < ts.len() && #[trigger] accepts(ts[i], v);
            if i < ts.len() - 1 {
                assert(p[i] == ts[i]);
            }
        }
    }
}

/// Whether some type of `types` accepts `value`.
fn any_valid(types: &Vec<ArgumentType>, value: &Variable) -> (r: bool)
    ensures
        r == any_accepts(arg_views(types@), value@),
    decreases types, 0nat,
{
    proof {
        lemma_arg_views(types@);
        lemma_any_accepts(arg_views(types@), value@);
    }
    let mut found = false;
    let mut i: usize = 0;
    while i < types.len()
        invariant
            i <= types.len(),
            arg_views(types@).len() == types.len(),
            forall|j: int| 0 <= j < types.len() ==> #[trigger] arg_views(types@)[j] == types@[j]@,
            found == exists|j: int| 0 <= j < i && #[trigger] accepts(arg_views(types@)[j], value@),
        decreases types.len() - i,
    {
        proof {
            assert(decreases_to!(types@ => types@[i as int]));
            assert(decreases_to!(*types => types@));
        }
        let ok = types[i].is_valid(value);
        assert(ok == accepts(arg_views(types@)[i as int], value@));
        found = found || ok;
        i = i + 1;
    }
    found
}

impl ArgumentType {
    /// Convert a Vec of types to Vec<String>
    pub fn types_to_strings(types: &Vec<ArgumentType>) -> (r: Vec<String>)
        ensures
            r.len() == types.len(),
            forall|i: int| 0 <= i < types.len() ==> (#[trigger] r@[i])@ == arg_label(types@[i]@),
        decreases types, 0nat,
    {
        let mut out: Vec<String> = Vec::new();
        let mut i: usize = 0;
        while i < types.len()
            invariant
                i <= types.len(),
                out.len() == i,
                forall|j: int| 0 <= j < i ==> (#[trigger] out@[j])@ == arg_label(types@[j]@),
            decreases types.len() - i,
        {
            proof {
                assert(decreases_to!(types@ => types@[i as int]));
                assert(decreases_to!(*types => types@));
            }
            let s = types[i].to_string();
            out.push(s);
            i = i + 1;
        }
        out
    }

    /// The name of this type, as used in error messages.
    pub fn to_string(&self) -> (r: String)
        ensures
            r@ == arg_label(self@),
        decreases self, 1nat,
    {
        match self {
            ArgumentType::Any => String::from_str("any"),
            ArgumentType::String => String::from_str("string"),
            ArgumentType::Number => String::from_str("number"),
            ArgumentType::Bool => String::from_str("boolean"),
            ArgumentType::Array => String::from_str("array"),
            ArgumentType::Object => String::from_str("object"),
            ArgumentType::Null => String::from_str("null"),
            ArgumentType::Expref => String::from_str("expref"),
            ArgumentType::ExprefReturns(types) => {
                proof {
                    assert(decreases_to!(self => *types));
                }
                let names = ArgumentType::types_to_strings(types);
                let ghost labels = arg_labels(arg_views(types@));
                proof {
                    lemma_arg_views(types@);
                    lemma_arg_labels(arg_views(types@));
                }
                let mut prefixed: Vec<String> = Vec::new();
                let mut i: usize = 0;
                while i < names.len()
                    invariant
                        i <= names.len(),
                        names.len() == types.len(),
                        labels == arg_labels(arg_views(types@)),
                        labels.len() == types.len(),
                        forall|j: int| 0 <= j < names.len() ==> (#[trigger] names@[j])@ == labels[j],
                        prefixed.len() == i,
                        forall|j: int|
                            0 <= j < i ==> (#[trigger] prefixed@[j])@ == "expref->"@ + labels[j],
                    decreases names.len() - i,
                {
                    let mut s = String::from_str("expref->");
                    s.append(names[i].as_str());
                    prefixed.push(s);
                    i = i + 1;
                }
                let sep = String::from_str("|");
                let r = join_strings(&prefixed, &sep);
                assert(prefixed@.map_values(|s: String| s@) =~= labels.map_values(
                    |l: Seq<char>| "expref->"@ + l,
                ));
                r
            },
            ArgumentType::OneOf(types) => {
                proof {
                    assert(decreases_to!(self => *types));
                }
                let names = ArgumentType::types_to_strings(types);
                proof {
                    lemma_arg_views(types@);
                    lemma_arg_labels(arg_views(types@));
                }
                let sep = String::from_str("|");
                let r = join_strings(&names, &sep);
                assert(names@.map_values(|s: String| s@) =~= arg_labels(arg_views(types@)));
                r
            },
            ArgumentType::HomogeneousArray(types) => {
                proof {
                    assert(decreases_to!(self => *types));
                }
                let names = ArgumentType::types_to_strings(types);
                proof {
                    lemma_arg_views(types@);
                    lemma_arg_labels(arg_views(types@));
                }
                let sep = String::from_str("|");
                let inner = join_strings(&names, &sep);
                assert(names@.map_values(|s: String| s@) =~= arg_labels(arg_views(types@)));
                let mut r = String::from_str("array[");
                r.append(inner.as_str());
                r.append("]");
                r
            },
        }
    }

    /// Returns true/false if the variable is valid for the type.
    #[verifier::loop_isolation(false)]
    pub fn is_valid(&self, value: &Variable) -> (r: bool)
        ensures
            r == accepts(self@, value@),
        decreases self, 1nat,
    {
        match self {
            ArgumentType::Any => true,
            ArgumentType::Null => value.is_null(),
            ArgumentType::String => value.get_type() == JsonType::String,
            ArgumentType::Number => value.get_type() == JsonType::Number,
            ArgumentType::Object => value.get_type() == JsonType::Object,
            ArgumentType::Bool => value.get_type() == JsonType::Boolean,
            ArgumentType::Expref => value.get_type() == JsonType::Expref,
            ArgumentType::ExprefReturns(_) => value.get_type() == JsonType::Expref,
            ArgumentType::Array => value.get_type() == JsonType::Array,
            ArgumentType::OneOf(types) => {
                proof {
                    assert(decreases_to!(self => *types));
                }
                any_valid(types, value)
            },
            ArgumentType::HomogeneousArray(types) => {
                proof {
                    assert(decreases_to!(self => *types));
                }
                match value {
                    Variable::Array(values) => {
                        proof {
                            lemma_views(values@);
                        }
                        if values.len() == 0 {
                            return true;
                        }
                        let first_type = values[0].get_type();
                        let mut i: usize = 0;
                        while i < values.len()
                            invariant
                                i <= values.len(),
                                values.len() > 0,
                                first_type == type_of(values@[0]@),
                                views(values@).len() == values.len(),
                                forall|j: int|
                                    0 <= j < values.len() ==> #[trigger] views(values@)[j]
                                        == values@[j]@,
                                forall|j: int|
                                    0 <= j < i ==> any_accepts(arg_views(types@), #[trigger] values@[j]@)
                                        && type_of(values@[j]@) == first_type,
                            decreases values.len() - i,
                        {
                            proof {
                                assert(decreases_to!(self => *types));
                            }
                            let ok = any_valid(types, &values[i]);
                            if !ok || values[i].get_type() != first_type {
                                assert(!(any_accepts(arg_views(types@), views(values@)[i as int]) && type_of(
                                    views(values@)[i as int],
                                ) == type_of(views(values@)[0])));
                                return false;
                            }
                            i = i + 1;
                        }
                        assert forall|j: int| 0 <= j < views(values@).len() implies any_accepts(
                            arg_views(types@),
                            #[trigger] views(values@)[j],
                        ) && type_of(views(values@)[j]) == type_of(views(values@)[0]) by {
                            assert(views(values@)[j] == values@[j]@);
                        }
                        true
                    },
                    _ => false,
                }
            },
        }
    }
}

} // verus!
