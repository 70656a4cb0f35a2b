//! The built-in JMESPath functions that need no expression evaluation.
//! Each validates its arguments against its signature first; a validation
//! error is the function's result.

use vstd::prelude::*;
use crate::argument::{ArgumentType, ArgSpec, arg_views, lemma_arg_views};
use crate::error::{RuntimeError, ErrorModel, SearchResult, result_view};
use crate::number::{
    Float,
    float_with_value,
    signed_nearest_binary64,
    ceil_int,
    floor_int,
    float_of_integer,
    round_float,
};
use crate::text::{
    is_prefix,
    is_suffix,
    occurs_in,
    seq_join,
    chars_of,
    starts_with_chars,
    ends_with_chars,
    occurs_in_chars,
    join_strings,
    reverse_string,
    copy_string,
};
use crate::validate::{
    check_args,
    check_variadic_args,
    validate_args,
    validate_variadic_args,
    lemma_check_args_ok,
};
use crate::variable::{
    Variable,
    Json,
    type_of,
    type_label,
    views,
    lemma_views,
    entry_views,
    lemma_entry_views,
    entry_keys,
    entry_values,
};

verus! {

/// The result of a function whose arguments were checked: the check's error if
/// there is one, else the value.
pub open spec fn guarded(check: Option<ErrorModel>, value: Json) -> Result<Json, ErrorModel> {
    match check {
        Some(e) => Err(e),
        None => Ok(value),
    }
}

/// The characters of a string value (empty for any other value).
pub open spec fn str_of(j: Json) -> Seq<char> {
    match j {
        Json::Str(s) => s,
        _ => Seq::empty(),
    }
}

/// The elements of an array value (empty for any other value).
pub open spec fn elems_of(j: Json) -> Seq<Json> {
    match j {
        Json::Arr(a) => a,
        _ => Seq::empty(),
    }
}

/// The members of an object value (empty for any other value).
pub open spec fn members_of(j: Json) -> Seq<(Seq<char>, Json)> {
    match j {
        Json::Obj(es) => es,
        _ => Seq::empty(),
    }
}

// ---------------------------------------------------------------- abs

/// The signature of `abs`.
pub open spec fn abs_signature() -> Seq<ArgSpec> {
    seq![ArgSpec::Number]
}

/// The absolute value of a number.
pub open spec fn abs_value(v: Json) -> Json {
    match v {
        Json::I64(n) => Json::I64(
            if n < 0 {
                (-n) as i64
            } else {
                n
            },
        ),
        Json::F64(f) => Json::F64(
            Float::from_parts(
                if f.m() < 0 {
                    (-f.m()) as i64
                } else {
                    f.m()
                },
                f.e(),
            ),
        ),
        _ => v,
    }
}

/// Whether `abs` can compute its result: the absolute value of the least `i64`
/// does not fit an `i64`, and a float's mantissa is always above it.
pub open spec fn abs_defined(args: Seq<Json>) -> bool {
    args.len() == 1 ==> match args[0] {
        Json::I64(n) => n != i64::MIN,
        _ => true,
    }
}

fn abs_types() -> (r: Vec<ArgumentType>)
    ensures
        arg_views(r@) == abs_signature(),
{
    let r = vec![ArgumentType::Number];
    proof {
        lemma_arg_views(r@);
        assert(arg_views(r@) =~= abs_signature());
    }
    r
}

/// What `abs` returns.
pub open spec fn abs_result(args: Seq<Json>) -> Result<Json, ErrorModel> {
    guarded(check_args(args, abs_signature()), abs_value(args[0]))
}

/// `abs(number)`: the absolute value of its argument.
pub fn abs(args: Vec<Variable>) -> (r: SearchResult)
    requires
        abs_defined(views(args@)),
    ensures
        result_view(r) == abs_result(views(args@)),
{
    let types = abs_types();
    proof {
        lemma_views(args@);
    }
    validate_args(&args, &types)?;
    proof {
        lemma_check_args_ok(views(args@), abs_signature());
    }
    match &args[0] {
        Variable::I64(n) => Ok(Variable::I64(if *n < 0 { -*n } else { *n })),
        Variable::F64(f) => {
            let a = f.abs();
            proof {
                let ghost m: i64 = if f.m() < 0 { (-f.m()) as i64 } else { f.m() };
                Float::lemma_from_parts(m, f.e());
                Float::lemma_parts(a, Float::from_parts(m, f.e()));
            }
            Ok(Variable::F64(a))
        },
        other => Ok(other.deep_clone()),
    }
}


// ---------------------------------------------------------------- signatures

/// A vector of types with the given models, for the signatures below.
fn types_of1(a: ArgumentType) -> (r: Vec<ArgumentType>)
    ensures
        arg_views(r@) == seq![a@],
{
    let ghost av = a@;
    let r = vec![a];
    proof {
        lemma_arg_views(r@);
        assert(arg_views(r@) =~= seq![av]);
    }
    r
}

fn types_of2(a: ArgumentType, b: ArgumentType) -> (r: Vec<ArgumentType>)
    ensures
        arg_views(r@) == seq![a@, b@],
{
    let ghost av = a@;
    let ghost bv = b@;
    let r = vec![a, b];
    proof {
        lemma_arg_views(r@);
        assert(arg_views(r@) =~= seq![av, bv]);
    }
    r
}

fn one_of2(a: ArgumentType, b: ArgumentType) -> (r: ArgumentType)
    ensures
        r@ == ArgSpec::OneOf(seq![a@, b@]),
{
    ArgumentType::OneOf(types_of2(a, b))
}

fn homogeneous1(a: ArgumentType) -> (r: ArgumentType)
    ensures
        r@ == ArgSpec::HomogeneousArray(seq![a@]),
{
    ArgumentType::HomogeneousArray(types_of1(a))
}

// ---------------------------------------------------------------- avg, sum

/// The signature of `avg` and `sum`: an array of numbers.
pub open spec fn numbers_signature() -> Seq<ArgSpec> {
    seq![ArgSpec::HomogeneousArray(seq![ArgSpec::Number])]
}

/// Validates the arguments of `avg` and `sum`, whose results are computed in
/// floating point by the caller once this check passes.
pub fn check_numbers_args(args: &Vec<Variable>) -> (r: Result<(), RuntimeError>)
    ensures
        crate::error::check_view(r) == check_args(views(args@), numbers_signature()),
{
    let types = types_of1(homogeneous1(ArgumentType::Number));
    validate_args(args, &types)
}

// ---------------------------------------------------------------- ceil, floor

/// The signature of `ceil` and `floor`: a number.
pub open spec fn number_signature() -> Seq<ArgSpec> {
    seq![ArgSpec::Number]
}

/// A number rounded up (`up`) or down to an integer, as a float: an integer
/// is first converted to the nearest binary64 value, which is an integer.
pub open spec fn rounded_value(v: Json, up: bool) -> Json {
    match v {
        Json::I64(n) => Json::F64(float_with_value(signed_nearest_binary64(n as int), 0)),
        Json::U64(n) => Json::F64(float_with_value(signed_nearest_binary64(n as int), 0)),
        Json::F64(f) => Json::F64(
            float_with_value(
                if up {
                    ceil_int(f.m() as int, f.e() as int)
                } else {
                    floor_int(f.m() as int, f.e() as int)
                },
                0,
            ),
        ),
        _ => Json::Null,
    }
}

/// What `ceil` returns.
pub open spec fn ceil_result(args: Seq<Json>) -> Result<Json, ErrorModel> {
    guarded(check_args(args, number_signature()), rounded_value(args[0], true))
}

/// What `floor` returns.
pub open spec fn floor_result(args: Seq<Json>) -> Result<Json, ErrorModel> {
    guarded(check_args(args, number_signature()), rounded_value(args[0], false))
}

/// `ceil` (`up`) or `floor` of validated arguments.
fn round_number(args: Vec<Variable>, up: bool) -> (r: SearchResult)
    ensures
        result_view(r) == guarded(
            check_args(views(args@), number_signature()),
            rounded_value(views(args@)[0], up),
        ),
{
    let types = types_of1(ArgumentType::Number);
    proof {
        lemma_views(args@);
    }
    validate_args(&args, &types)?;
    proof {
        lemma_check_args_ok(views(args@), number_signature());
    }
    match &args[0] {
        Variable::I64(n) => {
            let magnitude: u64 = if *n < 0 {
                (-(*n as i128)) as u64
            } else {
                *n as u64
            };
            Ok(Variable::F64(float_of_integer(*n < 0, magnitude)))
        },
        Variable::U64(n) => Ok(Variable::F64(float_of_integer(false, *n))),
        Variable::F64(f) => {
            proof {
                use_type_invariant(f);
            }
            Ok(Variable::F64(round_float(*f, up)))
        },
        _ => Ok(Variable::Null),
    }
}

/// `ceil(number)`: the least integer not below the argument.
pub fn ceil(args: Vec<Variable>) -> (r: SearchResult)
    ensures
        result_view(r) == ceil_result(views(args@)),
{
    round_number(args, true)
}

/// `floor(number)`: the greatest integer not above the argument.
pub fn floor(args: Vec<Variable>) -> (r: SearchResult)
    ensures
        result_view(r) == floor_result(views(args@)),
{
    round_number(args, false)
}

// ---------------------------------------------------------------- contains

/// The signature of `contains`.
pub open spec fn contains_signature() -> Seq<ArgSpec> {
    seq![ArgSpec::OneOf(seq![ArgSpec::String, ArgSpec::Array]), ArgSpec::Any]
}

/// Whether `haystack` contains `needle`: an element equal to it, or, for a
/// string, the needle string as a substring.
pub open spec fn contains_value(haystack: Json, needle: Json) -> Json {
    match haystack {
        Json::Arr(a) => Json::Bool(exists|i: int| 0 <= i < a.len() && a[i] == needle),
        Json::Str(s) => Json::Bool(
            match needle {
                Json::Str(n) => occurs_in(n, s),
                _ => false,
            },
        ),
        _ => Json::Null,
    }
}

/// What `contains` returns.
pub open spec fn contains_result(args: Seq<Json>) -> Result<Json, ErrorModel> {
    guarded(check_args(args, contains_signature()), contains_value(args[0], args[1]))
}

/// `contains(array|string, any)`: whether the array holds an element equal to
/// the second argument, or the string holds the second argument (a string) as a
/// substring.
pub fn contains(args: Vec<Variable>) -> (r: SearchResult)
    ensures
        result_view(r) == contains_result(views(args@)),
{
    let types = types_of2(one_of2(ArgumentType::String, ArgumentType::Array), ArgumentType::Any);
    proof {
        lemma_views(args@);
    }
    validate_args(&args, &types)?;
    proof {
        lemma_check_args_ok(views(args@), contains_signature());
    }
    let needle = &args[1];
    match &args[0] {
        Variable::Array(a) => {
            proof {
                lemma_views(a@);
            }
            let mut found = false;
            let mut i: usize = 0;
            while i < a.len()
                invariant
                    i <= a.len(),
                    views(a@).len() == a.len(),
                    forall|j: int| 0 <= j < a.len() ==> #[trigger] views(a@)[j] == a@[j]@,
                    found == exists|j: int| 0 <= j < i && #[trigger] views(a@)[j] == needle@,
                decreases a.len() - i,
            {
                let same = a[i].deep_equals(needle);
                assert(same == (views(a@)[i as int] == needle@));
                found = found || same;
                i = i + 1;
            }
            Ok(Variable::Bool(found))
        },
        Variable::String(subj) => match needle {
            Variable::String(n) => {
                let sc = chars_of(subj.as_str());
                let nc = chars_of(n.as_str());
                Ok(Variable::Bool(occurs_in_chars(&sc, &nc)))
            },
            _ => Ok(Variable::Bool(false)),
        },
        _ => Ok(Variable::Null),
    }
}

// ---------------------------------------------------------------- starts_with, ends_with

/// The signature of `starts_with` and `ends_with`.
pub open spec fn two_strings_signature() -> Seq<ArgSpec> {
    seq![ArgSpec::String, ArgSpec::String]
}

/// What `ends_with` returns.
pub open spec fn ends_with_result(args: Seq<Json>) -> Result<Json, ErrorModel> {
    guarded(
        check_args(args, two_strings_signature()),
        Json::Bool(is_suffix(str_of(args[1]), str_of(args[0]))),
    )
}

/// What `starts_with` returns.
pub open spec fn starts_with_result(args: Seq<Json>) -> Result<Json, ErrorModel> {
    guarded(
        check_args(args, two_strings_signature()),
        Json::Bool(is_prefix(str_of(args[1]), str_of(args[0]))),
    )
}

/// The characters of a string value.
fn string_chars(v: &Variable) -> (r: Vec<char>)
    ensures
        r@ == str_of(v@),
{
    match v {
        Variable::String(s) => chars_of(s.as_str()),
        _ => Vec::new(),
    }
}

/// `ends_with(string, string)`: whether the first string ends with the second.
pub fn ends_with(args: Vec<Variable>) -> (r: SearchResult)
    ensures
        result_view(r) == ends_with_result(views(args@)),
{
    let types = types_of2(ArgumentType::String, ArgumentType::String);
    proof {
        lemma_views(args@);
    }
    validate_args(&args, &types)?;
    proof {
        lemma_check_args_ok(views(args@), two_strings_signature());
    }
    let subject = string_chars(&args[0]);
    let search = string_chars(&args[1]);
    Ok(Variable::Bool(ends_with_chars(&subject, &search)))
}

/// `starts_with(string, string)`: whether the first string starts with the second.
pub fn starts_with(args: Vec<Variable>) -> (r: SearchResult)
    ensures
        result_view(r) == starts_with_result(views(args@)),
{
    let types = types_of2(ArgumentType::String, ArgumentType::String);
    proof {
        lemma_views(args@);
    }
    validate_args(&args, &types)?;
    proof {
        lemma_check_args_ok(views(args@), two_strings_signature());
    }
    let subject = string_chars(&args[0]);
    let search = string_chars(&args[1]);
    Ok(Variable::Bool(starts_with_chars(&subject, &search)))
}

// ---------------------------------------------------------------- join

/// The signature of `join`.
pub open spec fn join_signature() -> Seq<ArgSpec> {
    seq![ArgSpec::String, ArgSpec::HomogeneousArray(seq![ArgSpec::String])]
}

/// What `join` returns.
pub open spec fn join_result(args: Seq<Json>) -> Result<Json, ErrorModel> {
    guarded(
        check_args(args, join_signature()),
        Json::Str(seq_join(elems_of(args[1]).map_values(|v: Json| str_of(v)), str_of(args[0]))),
    )
}

/// `join(string, array[string])`: the strings of the array with the first
/// argument between each two of them.
pub fn join(args: Vec<Variable>) -> (r: SearchResult)
    ensures
        result_view(r) == join_result(views(args@)),
{
    let types = types_of2(ArgumentType::String, homogeneous1(ArgumentType::String));
    proof {
        lemma_views(args@);
    }
    validate_args(&args, &types)?;
    proof {
        lemma_check_args_ok(views(args@), join_signature());
    }
    let glue = match &args[0] {
        Variable::String(g) => copy_string(g),
        _ => String::new(),
    };
    let mut strings: Vec<String> = Vec::new();
    match &args[1] {
        Variable::Array(values) => {
            proof {
                lemma_views(values@);
            }
            let mut i: usize = 0;
            while i < values.len()
                invariant
                    i <= values.len(),
                    strings.len() == i,
                    views(values@).len() == values.len(),
                    forall|j: int| 0 <= j < values.len() ==> #[trigger] views(values@)[j] == values@[j]@,
                    forall|j: int| 0 <= j < i ==> (#[trigger] strings@[j])@ == str_of(values@[j]@),
                decreases values.len() - i,
            {
                let s = match &values[i] {
                    Variable::String(s) => copy_string(s),
                    _ => String::new(),
                };
                strings.push(s);
                i = i + 1;
            }
            assert(strings@.map_values(|s: String| s@) =~= views(values@).map_values(
                |v: Json| str_of(v),
            ));
        },
        _ => {
            assert(strings@.map_values(|s: String| s@) =~= Seq::<Seq<char>>::empty());
        },
    }
    Ok(Variable::String(join_strings(&strings, &glue)))
}

// ---------------------------------------------------------------- length

/// The signature of `length`.
pub open spec fn length_signature() -> Seq<ArgSpec> {
    seq![ArgSpec::OneOf(seq![ArgSpec::Array, ArgSpec::Object, ArgSpec::String])]
}

/// The length of an array, object or string (in characters).
pub open spec fn length_value(v: Json) -> Json {
    match v {
        Json::Arr(a) => Json::U64(a.len() as u64),
        Json::Obj(es) => Json::U64(es.len() as u64),
        Json::Str(s) => Json::U64(s.len() as u64),
        _ => Json::Null,
    }
}

/// What `length` returns.
pub open spec fn length_result(args: Seq<Json>) -> Result<Json, ErrorModel> {
    guarded(check_args(args, length_signature()), length_value(args[0]))
}

/// `length(array|object|string)`: the number of elements, members or
/// characters (code points).
pub fn length(args: Vec<Variable>) -> (r: SearchResult)
    ensures
        result_view(r) == length_result(views(args@)),
{
    let three = vec![ArgumentType::Array, ArgumentType::Object, ArgumentType::String];
    proof {
        lemma_arg_views(three@);
        assert(arg_views(three@) =~= seq![ArgSpec::Array, ArgSpec::Object, ArgSpec::String]);
        lemma_views(args@);
    }
    let types = types_of1(ArgumentType::OneOf(three));
    validate_args(&args, &types)?;
    proof {
        lemma_check_args_ok(views(args@), length_signature());
    }
    match &args[0] {
        Variable::Array(a) => {
            proof {
                lemma_views(a@);
            }
            Ok(Variable::U64(a.len() as u64))
        },
        Variable::Object(m) => {
            proof {
                lemma_entry_views(m@);
            }
            Ok(Variable::U64(m.len() as u64))
        },
        Variable::String(s) => {
            let cs = chars_of(s.as_str());
            Ok(Variable::U64(cs.len() as u64))
        },
        _ => Ok(Variable::Null),
    }
}


// ---------------------------------------------------------------- reverse

/// The signature of `reverse`.
pub open spec fn reverse_signature() -> Seq<ArgSpec> {
    seq![ArgSpec::OneOf(seq![ArgSpec::Array, ArgSpec::String])]
}

/// An array or string in reverse order.
pub open spec fn reverse_value(v: Json) -> Json {
    match v {
        Json::Arr(a) => Json::Arr(a.reverse()),
        Json::Str(s) => Json::Str(s.reverse()),
        _ => Json::Null,
    }
}

/// What `reverse` returns.
pub open spec fn reverse_result(args: Seq<Json>) -> Result<Json, ErrorModel> {
    guarded(check_args(args, reverse_signature()), reverse_value(args[0]))
}

/// The values of a vector, last first.
fn reverse_values(vals: Vec<Variable>) -> (r: Vec<Variable>)
    ensures
        views(r@) == views(vals@).reverse(),
{
    let ghost orig = vals@;
    let mut vals = vals;
    let mut out: Vec<Variable> = Vec::new();
    while vals.len() > 0
        invariant
            orig.len() == vals.len() + out.len(),
            vals@ == orig.take(vals.len() as int),
            forall|j: int| 0 <= j < out.len() ==> #[trigger] out@[j] == orig[orig.len() - 1 - j],
        decreases vals.len(),
    {
        let x = vals.pop().unwrap();
        out.push(x);
        assert(vals@ =~= orig.take(vals.len() as int));
    }
    proof {
        lemma_views(out@);
        lemma_views(orig);
        assert(views(out@) =~= views(orig).reverse());
    }
    out
}

/// `reverse(array|string)`: the elements or characters in reverse order.
pub fn reverse(args: Vec<Variable>) -> (r: SearchResult)
    ensures
        result_view(r) == reverse_result(views(args@)),
{
    let types = types_of1(one_of2(ArgumentType::Array, ArgumentType::String));
    proof {
        lemma_views(args@);
    }
    validate_args(&args, &types)?;
    proof {
        lemma_check_args_ok(views(args@), reverse_signature());
    }
    let mut args = args;
    let v = args.remove(0);
    match v {
        Variable::Array(vals) => {
            proof {
                lemma_views(vals@);
            }
            let out = reverse_values(vals);
            Ok(Variable::Array(out))
        },
        Variable::String(s) => Ok(Variable::String(reverse_string(&s))),
        _ => Ok(Variable::Null),
    }
}

// ---------------------------------------------------------------- not_null

/// The first argument that is not null, or null if there is none.
pub open spec fn first_non_null(args: Seq<Json>) -> Json
    decreases args.len(),
{
    if args.len() == 0 {
        Json::Null
    } else if !(args[0] is Null) {
        args[0]
    } else {
        first_non_null(args.drop_first())
    }
}

/// What `not_null` returns.
pub open spec fn not_null_result(args: Seq<Json>) -> Result<Json, ErrorModel> {
    guarded(check_variadic_args(args, seq![ArgSpec::Any], ArgSpec::Any), first_non_null(args))
}

/// `not_null(any, ...)`: the first argument that is not null, or null.
pub fn not_null(args: Vec<Variable>) -> (r: SearchResult)
    ensures
        result_view(r) == not_null_result(views(args@)),
{
    let types = types_of1(ArgumentType::Any);
    proof {
        lemma_views(args@);
    }
    validate_variadic_args(&args, &types, &ArgumentType::Any)?;
    let ghost all = views(args@);
    assert(all.skip(0) =~= all);
    let mut i: usize = 0;
    while i < args.len()
        invariant
            i <= args.len(),
            all == views(args@),
            all.len() == args.len(),
            check_variadic_args(all, seq![ArgSpec::Any], ArgSpec::Any) is None,
            forall|j: int| 0 <= j < args.len() ==> #[trigger] all[j] == args@[j]@,
            first_non_null(all) == first_non_null(all.skip(i as int)),
        decreases args.len() - i,
    {
        assert(all.skip(i as int).drop_first() =~= all.skip(i + 1));
        assert(all.skip(i as int)[0] == all[i as int]);
        if !args[i].is_null() {
            assert(first_non_null(all.skip(i as int)) == all[i as int]);
            return Ok(args[i].deep_clone());
        }
        i = i + 1;
    }
    assert(all.skip(i as int).len() == 0);
    Ok(Variable::Null)
}

// ---------------------------------------------------------------- to_array, type

/// A value as an array: arrays as they are, anything else wrapped in one.
pub open spec fn to_array_value(v: Json) -> Json {
    match v {
        Json::Arr(_) => v,
        _ => Json::Arr(seq![v]),
    }
}

/// What `to_array` returns.
pub open spec fn to_array_result(args: Seq<Json>) -> Result<Json, ErrorModel> {
    guarded(check_args(args, seq![ArgSpec::Any]), to_array_value(args[0]))
}

/// `to_array(any)`: an array as it is, any other value in a one-element array.
pub fn to_array(args: Vec<Variable>) -> (r: SearchResult)
    ensures
        result_view(r) == to_array_result(views(args@)),
{
    let types = types_of1(ArgumentType::Any);
    proof {
        lemma_views(args@);
    }
    validate_args(&args, &types)?;
    proof {
        lemma_check_args_ok(views(args@), seq![ArgSpec::Any]);
    }
    let mut args = args;
    let v = args.remove(0);
    match v {
        Variable::Array(_) => Ok(v),
        _ => {
            let ghost vv = v@;
            let out = vec![v];
            proof {
                lemma_views(out@);
                assert(views(out@) =~= seq![vv]);
            }
            Ok(Variable::Array(out))
        },
    }
}

/// What `type` returns.
pub open spec fn type_result(args: Seq<Json>) -> Result<Json, ErrorModel> {
    guarded(check_args(args, seq![ArgSpec::Any]), Json::Str(type_label(type_of(args[0]))))
}

/// `type(any)`: the name of the argument's type.
pub fn type_of_value(args: Vec<Variable>) -> (r: SearchResult)
    ensures
        result_view(r) == type_result(views(args@)),
{
    let types = types_of1(ArgumentType::Any);
    proof {
        lemma_views(args@);
    }
    validate_args(&args, &types)?;
    proof {
        lemma_check_args_ok(views(args@), seq![ArgSpec::Any]);
    }
    Ok(Variable::String(args[0].type_string()))
}

// ---------------------------------------------------------------- keys, values

/// What `keys` returns.
pub open spec fn keys_result(args: Seq<Json>) -> Result<Json, ErrorModel> {
    guarded(check_args(args, seq![ArgSpec::Object]), Json::Arr(entry_keys(members_of(args[0]))))
}

/// What `values` returns.
pub open spec fn values_result(args: Seq<Json>) -> Result<Json, ErrorModel> {
    guarded(
        check_args(args, seq![ArgSpec::Object]),
        Json::Arr(entry_values(members_of(args[0]))),
    )
}

/// `keys(object)`: the object's keys, in the order of its members (key order
/// for an object whose members are kept in key order, as `merge` makes them).
pub fn keys(args: Vec<Variable>) -> (r: SearchResult)
    ensures
        result_view(r) == keys_result(views(args@)),
{
    let types = types_of1(ArgumentType::Object);
    proof {
        lemma_views(args@);
    }
    validate_args(&args, &types)?;
    proof {
        lemma_check_args_ok(views(args@), seq![ArgSpec::Object]);
    }
    let mut out: Vec<Variable> = Vec::new();
    match &args[0] {
        Variable::Object(es) => {
            proof {
                lemma_entry_views(es@);
            }
            let mut i: usize = 0;
            while i < es.len()
                invariant
                    i <= es.len(),
                    out.len() == i,
                    entry_views(es@).len() == es.len(),
                    forall|j: int|
                        0 <= j < es.len() ==> #[trigger] entry_views(es@)[j] == (
                            es@[j].0@,
                            es@[j].1@,
                        ),
                    forall|j: int| 0 <= j < i ==> (#[trigger] out@[j])@ == Json::Str(es@[j].0@),
                decreases es.len() - i,
            {
                out.push(Variable::String(copy_string(&es[i].0)));
                i = i + 1;
            }
            proof {
                lemma_views(out@);
                assert(views(out@) =~= entry_keys(entry_views(es@)));
            }
        },
        _ => {
            proof {
                lemma_views(out@);
                assert(views(out@) =~= entry_keys(Seq::empty()));
            }
        },
    }
    Ok(Variable::Array(out))
}

/// `values(object)`: the object's values, in the order of its members.
pub fn values(args: Vec<Variable>) -> (r: SearchResult)
    ensures
        result_view(r) == values_result(views(args@)),
{
    let types = types_of1(ArgumentType::Object);
    proof {
        lemma_views(args@);
    }
    validate_args(&args, &types)?;
    proof {
        lemma_check_args_ok(views(args@), seq![ArgSpec::Object]);
    }
    let mut out: Vec<Variable> = Vec::new();
    match &args[0] {
        Variable::Object(es) => {
            proof {
                lemma_entry_views(es@);
            }
            let mut i: usize = 0;
            while i < es.len()
                invariant
                    i <= es.len(),
                    out.len() == i,
                    entry_views(es@).len() == es.len(),
                    forall|j: int|
                        0 <= j < es.len() ==> #[trigger] entry_views(es@)[j] == (
                            es@[j].0@,
                            es@[j].1@,
                        ),
                    forall|j: int| 0 <= j < i ==> (#[trigger] out@[j])@ == es@[j].1@,
                decreases es.len() - i,
            {
                out.push(es[i].1.deep_clone());
                i = i + 1;
            }
            proof {
                lemma_views(out@);
                assert(views(out@) =~= entry_values(entry_views(es@)));
            }
        },
        _ => {
            proof {
                lemma_views(out@);
                assert(views(out@) =~= entry_values(Seq::empty()));
            }
        },
    }
    Ok(Variable::Array(out))
}

// ---------------------------------------------------------------- to_number, to_string

/// A value as a number: numbers as they are; a string by what reading it as
/// JSON text gave (`parsed`), null where that failed; anything else null.
pub open spec fn to_number_value(v: Json, parsed: Option<Json>) -> Json {
    match v {
        Json::I64(_) => v,
        Json::U64(_) => v,
        Json::F64(_) => v,
        Json::Str(_) => match parsed {
            Some(p) => p,
            None => Json::Null,
        },
        _ => Json::Null,
    }
}

/// What `to_number` returns, given what reading a string argument as JSON
/// text gave.
pub open spec fn to_number_result(args: Seq<Json>, parsed: Option<Json>) -> Result<
    Json,
    ErrorModel,
> {
    guarded(check_args(args, seq![ArgSpec::Any]), to_number_value(args[0], parsed))
}

/// The model of an optional value.
pub open spec fn option_view(o: Option<Variable>) -> Option<Json> {
    match o {
        Some(v) => Some(v@),
        None => None,
    }
}

/// `to_number(any)`: numbers as they are, a string read as JSON text (`parsed`
/// is what reading it gave, `None` where it failed), anything else null.
pub fn to_number(args: Vec<Variable>, parsed: Option<Variable>) -> (r: SearchResult)
    ensures
        result_view(r) == to_number_result(views(args@), option_view(parsed)),
{
    let types = types_of1(ArgumentType::Any);
    proof {
        lemma_views(args@);
    }
    validate_args(&args, &types)?;
    proof {
        lemma_check_args_ok(views(args@), seq![ArgSpec::Any]);
    }
    let mut args = args;
    let v = args.remove(0);
    match v {
        Variable::I64(_) => Ok(v),
        Variable::U64(_) => Ok(v),
        Variable::F64(_) => Ok(v),
        Variable::String(_) => match parsed {
            Some(p) => Ok(p),
            None => Ok(Variable::Null),
        },
        _ => Ok(Variable::Null),
    }
}

/// The signature of `to_string`.
pub open spec fn to_string_signature() -> Seq<ArgSpec> {
    seq![
        ArgSpec::OneOf(
            seq![
                ArgSpec::Object,
                ArgSpec::Array,
                ArgSpec::Bool,
                ArgSpec::Number,
                ArgSpec::String,
                ArgSpec::Null,
            ],
        ),
    ]
}

/// What `to_string` returns, given the JSON text of a non-string argument.
pub open spec fn to_string_result(args: Seq<Json>, rendered: Seq<char>) -> Result<
    Json,
    ErrorModel,
> {
    guarded(
        check_args(args, to_string_signature()),
        match args[0] {
            Json::Str(_) => args[0],
            _ => Json::Str(rendered),
        },
    )
}

/// `to_string(object|array|boolean|number|string|null)`: a string as it is,
/// anything else as its JSON text (`rendered`).
pub fn to_string(args: Vec<Variable>, rendered: String) -> (r: SearchResult)
    ensures
        result_view(r) == to_string_result(views(args@), rendered@),
{
    let six = vec![
        ArgumentType::Object,
        ArgumentType::Array,
        ArgumentType::Bool,
        ArgumentType::Number,
        ArgumentType::String,
        ArgumentType::Null,
    ];
    proof {
        lemma_arg_views(six@);
        assert(arg_views(six@) =~= seq![
            ArgSpec::Object,
            ArgSpec::Array,
            ArgSpec::Bool,
            ArgSpec::Number,
            ArgSpec::String,
            ArgSpec::Null,
        ]);
        lemma_views(args@);
    }
    let types = types_of1(ArgumentType::OneOf(six));
    validate_args(&args, &types)?;
    proof {
        lemma_check_args_ok(views(args@), to_string_signature());
    }
    let mut args = args;
    let v = args.remove(0);
    match v {
        Variable::String(_) => Ok(v),
        _ => Ok(Variable::String(rendered)),
    }
}

} // verus!
