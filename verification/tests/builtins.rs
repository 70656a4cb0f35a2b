use lib::error::RuntimeError;
use lib::functions::{
    abs, ceil, check_numbers_args, floor, contains, ends_with, join, keys, length, not_null,
    reverse, starts_with, to_array, to_number, to_string, type_of_value, values,
};
use lib::objects::merge;
use lib::variable::{Ast, Variable};
use lib::Float;

fn s(x: &str) -> Variable {
    Variable::String(x.to_string())
}

fn float(x: f64) -> Variable {
    Variable::F64(Float::from_bits(x.to_bits()).unwrap())
}

fn obj(members: Vec<(&str, Variable)>) -> Variable {
    Variable::Object(members.into_iter().map(|(k, v)| (k.to_string(), v)).collect())
}

fn same(a: &Variable, b: &Variable) -> bool {
    a.deep_equals(b)
}

fn ok(r: Result<Variable, RuntimeError>) -> Variable {
    match r {
        Ok(v) => v,
        Err(e) => panic!("unexpected error {:?}", e),
    }
}

#[test]
fn abs_of_each_number_kind() {
    assert!(same(&ok(abs(vec![Variable::I64(-5)])), &Variable::I64(5)));
    assert!(same(&ok(abs(vec![Variable::I64(7)])), &Variable::I64(7)));
    assert!(same(&ok(abs(vec![Variable::U64(3)])), &Variable::U64(3)));
    assert!(same(&ok(abs(vec![float(-1.5)])), &float(1.5)));
}

#[test]
fn abs_rejects_a_string() {
    match abs(vec![s("x")]) {
        Err(RuntimeError::InvalidType { expected, actual, position, .. }) => {
            assert_eq!(expected, "number");
            assert_eq!(actual, "string");
            assert_eq!(position, 0);
        }
        _ => panic!("expected InvalidType"),
    }
}

#[test]
fn abs_rejects_two_arguments() {
    match abs(vec![Variable::I64(1), Variable::I64(2)]) {
        Err(RuntimeError::TooManyArguments { expected, actual }) => {
            assert_eq!((expected, actual), (1, 2))
        }
        _ => panic!("expected TooManyArguments"),
    }
}

#[test]
fn contains_in_arrays_and_strings() {
    let arr = Variable::Array(vec![s("a"), Variable::U64(2)]);
    assert!(same(&ok(contains(vec![arr, Variable::U64(2)])), &Variable::Bool(true)));
    let arr = Variable::Array(vec![s("a"), Variable::U64(2)]);
    assert!(same(&ok(contains(vec![arr, Variable::I64(2)])), &Variable::Bool(false)));
    assert!(same(&ok(contains(vec![s("foobar"), s("oba")])), &Variable::Bool(true)));
    assert!(same(&ok(contains(vec![s("foobar"), s("baz")])), &Variable::Bool(false)));
    assert!(same(&ok(contains(vec![s("foobar"), Variable::U64(1)])), &Variable::Bool(false)));
    assert!(same(&ok(contains(vec![s("abc"), s("")])), &Variable::Bool(true)));
}

#[test]
fn contains_rejects_a_number_haystack() {
    match contains(vec![Variable::U64(1), Variable::U64(1)]) {
        Err(RuntimeError::InvalidType { expected, actual, position, .. }) => {
            assert_eq!(expected, "string|array");
            assert_eq!(actual, "number");
            assert_eq!(position, 0);
        }
        _ => panic!("expected InvalidType"),
    }
}

#[test]
fn starts_and_ends_with() {
    assert!(same(&ok(starts_with(vec![s("jmespath"), s("jmes")])), &Variable::Bool(true)));
    assert!(same(&ok(starts_with(vec![s("jmespath"), s("path")])), &Variable::Bool(false)));
    assert!(same(&ok(ends_with(vec![s("jmespath"), s("path")])), &Variable::Bool(true)));
    assert!(same(&ok(ends_with(vec![s("jmespath"), s("jmes")])), &Variable::Bool(false)));
    assert!(same(&ok(ends_with(vec![s("a"), s("abc")])), &Variable::Bool(false)));
}

#[test]
fn join_puts_glue_between() {
    let arr = Variable::Array(vec![s("a"), s("b"), s("c")]);
    assert!(same(&ok(join(vec![s(", "), arr])), &s("a, b, c")));
    assert!(same(&ok(join(vec![s("-"), Variable::Array(vec![])])), &s("")));
}

#[test]
fn join_rejects_mixed_array() {
    let arr = Variable::Array(vec![s("a"), Variable::U64(1)]);
    match join(vec![s(","), arr]) {
        Err(RuntimeError::InvalidType { expected, actual, position, .. }) => {
            assert_eq!(expected, "array[string]");
            assert_eq!(actual, "array");
            assert_eq!(position, 1);
        }
        _ => panic!("expected InvalidType"),
    }
}

#[test]
fn length_counts_code_points() {
    assert!(same(&ok(length(vec![s("héllo")])), &Variable::U64(5)));
    let arr = Variable::Array(vec![Variable::Null, Variable::Null]);
    assert!(same(&ok(length(vec![arr])), &Variable::U64(2)));
    let o = obj(vec![("a", Variable::U64(1))]);
    assert!(same(&ok(length(vec![o])), &Variable::U64(1)));
}

#[test]
fn reverse_arrays_and_strings() {
    let arr = Variable::Array(vec![Variable::U64(1), s("x"), Variable::Null]);
    let want = Variable::Array(vec![Variable::Null, s("x"), Variable::U64(1)]);
    assert!(same(&ok(reverse(vec![arr])), &want));
    assert!(same(&ok(reverse(vec![s("abc")])), &s("cba")));
}

#[test]
fn reverse_twice_gives_back() {
    let arr = Variable::Array(vec![Variable::U64(1), Variable::U64(2), Variable::U64(3)]);
    let once = ok(reverse(vec![arr.deep_clone()]));
    let twice = ok(reverse(vec![once]));
    assert!(same(&twice, &arr));
}

#[test]
fn not_null_picks_first_value() {
    let r = ok(not_null(vec![Variable::Null, s("a"), s("b")]));
    assert!(same(&r, &s("a")));
    assert!(same(&ok(not_null(vec![Variable::Null, Variable::Null])), &Variable::Null));
    match not_null(vec![]) {
        Err(RuntimeError::NotEnoughArguments { expected, actual }) => {
            assert_eq!((expected, actual), (1, 0))
        }
        _ => panic!("expected NotEnoughArguments"),
    }
}

#[test]
fn to_array_wraps_non_arrays() {
    assert!(same(&ok(to_array(vec![s("a")])), &Variable::Array(vec![s("a")])));
    let arr = Variable::Array(vec![Variable::U64(1)]);
    assert!(same(&ok(to_array(vec![arr.deep_clone()])), &arr));
    let twice = ok(to_array(vec![ok(to_array(vec![s("a")]))]));
    assert!(same(&twice, &Variable::Array(vec![s("a")])));
}

#[test]
fn type_names_values() {
    assert!(same(&ok(type_of_value(vec![s("a")])), &s("string")));
    assert!(same(&ok(type_of_value(vec![Variable::I64(1)])), &s("number")));
    assert!(same(&ok(type_of_value(vec![float(1.5)])), &s("number")));
    assert!(same(&ok(type_of_value(vec![Variable::Bool(true)])), &s("boolean")));
    assert!(same(&ok(type_of_value(vec![Variable::Null])), &s("null")));
    assert!(same(&ok(type_of_value(vec![Variable::Array(vec![])])), &s("array")));
    assert!(same(&ok(type_of_value(vec![Variable::Object(vec![])])), &s("object")));
    assert!(same(&ok(type_of_value(vec![Variable::Expref(Ast { id: 3 })])), &s("expref")));
}

#[test]
fn keys_and_values_in_key_order() {
    let o = obj(vec![("a", Variable::U64(1)), ("b", s("x"))]);
    assert!(same(&ok(keys(vec![o.deep_clone()])), &Variable::Array(vec![s("a"), s("b")])));
    let want = Variable::Array(vec![Variable::U64(1), s("x")]);
    assert!(same(&ok(values(vec![o])), &want));
}

#[test]
fn keys_rejects_an_array() {
    match keys(vec![Variable::Array(vec![])]) {
        Err(RuntimeError::InvalidType { expected, actual, .. }) => {
            assert_eq!(expected, "object");
            assert_eq!(actual, "array");
        }
        _ => panic!("expected InvalidType"),
    }
}

#[test]
fn merge_later_values_win() {
    let a = obj(vec![("a", Variable::U64(1)), ("b", Variable::U64(2))]);
    let b = obj(vec![("b", Variable::U64(3)), ("c", Variable::U64(4))]);
    let want = obj(vec![("a", Variable::U64(1)), ("b", Variable::U64(3)), ("c", Variable::U64(4))]);
    assert!(same(&ok(merge(vec![a, b])), &want));
}

#[test]
fn merge_sorts_keys() {
    let a = obj(vec![("z", Variable::U64(1))]);
    let b = obj(vec![("m", Variable::U64(2)), ("a", Variable::U64(3))]);
    let want = obj(vec![("a", Variable::U64(3)), ("m", Variable::U64(2)), ("z", Variable::U64(1))]);
    assert!(same(&ok(merge(vec![a, b])), &want));
}

#[test]
fn merge_keeps_the_last_value_of_a_key() {
    let a = obj(vec![("k", Variable::U64(1)), ("b", Variable::U64(5))]);
    let b = obj(vec![("k", Variable::U64(2))]);
    let c = obj(vec![("a", Variable::Null), ("k", Variable::U64(3))]);
    let want = obj(vec![("a", Variable::Null), ("b", Variable::U64(5)), ("k", Variable::U64(3))]);
    assert!(same(&ok(merge(vec![a, b, c])), &want));
}

#[test]
fn merge_one_object_is_itself() {
    let a = obj(vec![("a", Variable::U64(1)), ("b", Variable::U64(2))]);
    assert!(same(&ok(merge(vec![a.deep_clone()])), &a));
}

#[test]
fn merge_rejects_non_object() {
    match merge(vec![Variable::Object(vec![]), s("x")]) {
        Err(RuntimeError::InvalidType { expected, position, .. }) => {
            assert_eq!(expected, "object");
            assert_eq!(position, 1);
        }
        _ => panic!("expected InvalidType"),
    }
}

#[test]
fn to_number_keeps_numbers_and_uses_parse() {
    assert!(same(&ok(to_number(vec![Variable::I64(-1)], None)), &Variable::I64(-1)));
    assert!(same(&ok(to_number(vec![s("12")], Some(Variable::U64(12)))), &Variable::U64(12)));
    assert!(same(&ok(to_number(vec![s("abc")], None)), &Variable::Null));
    assert!(same(&ok(to_number(vec![Variable::Bool(true)], None)), &Variable::Null));
}

#[test]
fn to_string_keeps_strings_and_uses_rendering() {
    assert!(same(&ok(to_string(vec![s("a")], String::new())), &s("a")));
    let r = ok(to_string(vec![Variable::U64(12)], "12".to_string()));
    assert!(same(&r, &s("12")));
    match to_string(vec![Variable::Expref(Ast { id: 0 })], String::new()) {
        Err(RuntimeError::InvalidType { expected, actual, .. }) => {
            assert_eq!(expected, "object|array|boolean|number|string|null");
            assert_eq!(actual, "expref");
        }
        _ => panic!("expected InvalidType"),
    }
}

#[test]
fn float_functions_validate_arguments() {
    let nums = Variable::Array(vec![Variable::U64(1), float(2.5)]);
    assert!(check_numbers_args(&vec![nums]).is_ok());
    let bad = Variable::Array(vec![Variable::U64(1), s("2")]);
    match check_numbers_args(&vec![bad]) {
        Err(RuntimeError::InvalidType { expected, .. }) => assert_eq!(expected, "array[number]"),
        _ => panic!("expected InvalidType"),
    }
}

#[test]
fn ceil_and_floor_of_floats() {
    assert!(same(&ok(ceil(vec![float(1.5)])), &float(2.0)));
    assert!(same(&ok(floor(vec![float(1.5)])), &float(1.0)));
    assert!(same(&ok(ceil(vec![float(-1.5)])), &float(-1.0)));
    assert!(same(&ok(floor(vec![float(-1.5)])), &float(-2.0)));
    assert!(same(&ok(ceil(vec![float(1e-300)])), &float(1.0)));
    assert!(same(&ok(floor(vec![float(1e-300)])), &float(0.0)));
    assert!(same(&ok(floor(vec![float(-1e-300)])), &float(-1.0)));
    assert!(same(&ok(ceil(vec![float(-1e-300)])), &float(0.0)));
    assert!(same(&ok(floor(vec![float(1e300)])), &float(1e300)));
    assert!(same(&ok(ceil(vec![float(4.0)])), &float(4.0)));
}

#[test]
fn ceil_and_floor_of_integers_give_floats() {
    assert!(same(&ok(ceil(vec![Variable::I64(-3)])), &float(-3.0)));
    assert!(same(&ok(floor(vec![Variable::U64(7)])), &float(7.0)));
    assert!(same(&ok(ceil(vec![Variable::U64(u64::MAX)])), &float(u64::MAX as f64)));
    let big = (1u64 << 53) + 1;
    assert!(same(&ok(floor(vec![Variable::U64(big)])), &float(big as f64)));
    let tie_up = (1u64 << 54) + 6;
    assert!(same(&ok(floor(vec![Variable::U64(tie_up)])), &float(tie_up as f64)));
    assert!(same(&ok(floor(vec![Variable::I64(i64::MIN)])), &float(i64::MIN as f64)));
}

#[test]
fn ceil_rejects_a_string() {
    match ceil(vec![s("1")]) {
        Err(RuntimeError::InvalidType { expected, actual, .. }) => {
            assert_eq!(expected, "number");
            assert_eq!(actual, "string");
        }
        _ => panic!("expected InvalidType"),
    }
}
