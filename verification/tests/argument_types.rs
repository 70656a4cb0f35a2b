use lib::argument::ArgumentType;
use lib::error::{validate_arity, validate_min_arity, RuntimeError};
use lib::validate::{validate_args, validate_variadic_args};
use lib::variable::{Ast, Variable};
use lib::Float;

fn s(x: &str) -> Variable {
    Variable::String(x.to_string())
}

fn float(x: f64) -> Variable {
    Variable::F64(Float::from_bits(x.to_bits()).unwrap())
}

#[test]
fn arity_exact_is_accepted() {
    assert!(validate_arity(2, 2).is_ok());
}

#[test]
fn arity_too_few_is_reported() {
    match validate_arity(3, 1) {
        Err(RuntimeError::NotEnoughArguments { expected, actual }) => {
            assert_eq!(expected, 3);
            assert_eq!(actual, 1);
        }
        _ => panic!("expected NotEnoughArguments"),
    }
}

#[test]
fn arity_too_many_is_reported() {
    match validate_arity(1, 4) {
        Err(RuntimeError::TooManyArguments { expected, actual }) => {
            assert_eq!(expected, 1);
            assert_eq!(actual, 4);
        }
        _ => panic!("expected TooManyArguments"),
    }
}

#[test]
fn min_arity_accepts_more() {
    assert!(validate_min_arity(1, 1).is_ok());
    assert!(validate_min_arity(1, 5).is_ok());
    match validate_min_arity(2, 0) {
        Err(RuntimeError::NotEnoughArguments { expected, actual }) => {
            assert_eq!((expected, actual), (2, 0));
        }
        _ => panic!("expected NotEnoughArguments"),
    }
}

#[test]
fn simple_type_names() {
    assert_eq!(ArgumentType::Any.to_string(), "any");
    assert_eq!(ArgumentType::String.to_string(), "string");
    assert_eq!(ArgumentType::Number.to_string(), "number");
    assert_eq!(ArgumentType::Bool.to_string(), "boolean");
    assert_eq!(ArgumentType::Array.to_string(), "array");
    assert_eq!(ArgumentType::Object.to_string(), "object");
    assert_eq!(ArgumentType::Null.to_string(), "null");
    assert_eq!(ArgumentType::Expref.to_string(), "expref");
}

#[test]
fn compound_type_names() {
    let one_of = ArgumentType::OneOf(vec![ArgumentType::String, ArgumentType::Array]);
    assert_eq!(one_of.to_string(), "string|array");
    let homogeneous =
        ArgumentType::HomogeneousArray(vec![ArgumentType::String, ArgumentType::Number]);
    assert_eq!(homogeneous.to_string(), "array[string|number]");
    let returns = ArgumentType::ExprefReturns(vec![ArgumentType::Number, ArgumentType::String]);
    assert_eq!(returns.to_string(), "expref->number|expref->string");
    let nested = ArgumentType::OneOf(vec![
        ArgumentType::HomogeneousArray(vec![ArgumentType::Number]),
        ArgumentType::Null,
    ]);
    assert_eq!(nested.to_string(), "array[number]|null");
}

#[test]
fn types_to_strings_names_each_type() {
    let types = vec![ArgumentType::Number, ArgumentType::OneOf(vec![ArgumentType::Bool])];
    assert_eq!(
        ArgumentType::types_to_strings(&types),
        vec!["number".to_string(), "boolean".to_string()]
    );
}

#[test]
fn simple_types_accept_their_values() {
    assert!(ArgumentType::Any.is_valid(&Variable::Null));
    assert!(ArgumentType::Null.is_valid(&Variable::Null));
    assert!(!ArgumentType::Null.is_valid(&Variable::Bool(false)));
    assert!(ArgumentType::String.is_valid(&s("x")));
    assert!(ArgumentType::Number.is_valid(&Variable::I64(-3)));
    assert!(ArgumentType::Number.is_valid(&Variable::U64(3)));
    assert!(ArgumentType::Number.is_valid(&float(2.5)));
    assert!(!ArgumentType::Number.is_valid(&s("2")));
    assert!(ArgumentType::Bool.is_valid(&Variable::Bool(true)));
    assert!(ArgumentType::Array.is_valid(&Variable::Array(vec![])));
    assert!(ArgumentType::Object.is_valid(&Variable::Object(vec![])));
    assert!(ArgumentType::Expref.is_valid(&Variable::Expref(Ast { id: 0 })));
    assert!(ArgumentType::ExprefReturns(vec![ArgumentType::Number])
        .is_valid(&Variable::Expref(Ast { id: 1 })));
    assert!(!ArgumentType::Expref.is_valid(&Variable::Null));
}

#[test]
fn one_of_accepts_any_alternative() {
    let t = ArgumentType::OneOf(vec![ArgumentType::String, ArgumentType::Array]);
    assert!(t.is_valid(&s("a")));
    assert!(t.is_valid(&Variable::Array(vec![])));
    assert!(!t.is_valid(&Variable::U64(1)));
    assert!(!ArgumentType::OneOf(vec![]).is_valid(&Variable::Null));
}

#[test]
fn homogeneous_arrays() {
    let t = ArgumentType::HomogeneousArray(vec![ArgumentType::String, ArgumentType::Number]);
    assert!(t.is_valid(&Variable::Array(vec![])));
    assert!(t.is_valid(&Variable::Array(vec![s("a"), s("b")])));
    assert!(t.is_valid(&Variable::Array(vec![Variable::U64(1), Variable::I64(-2), float(0.5)])));
    assert!(!t.is_valid(&Variable::Array(vec![s("a"), Variable::U64(1)])));
    assert!(!t.is_valid(&Variable::Array(vec![Variable::Bool(true)])));
    assert!(!t.is_valid(&s("a")));
}

#[test]
fn validation_reports_first_wrong_argument() {
    let types = vec![ArgumentType::String, ArgumentType::Number];
    let args = vec![s("a"), s("b")];
    match validate_args(&args, &types) {
        Err(RuntimeError::InvalidType { expected, actual, actual_value, position }) => {
            assert_eq!(expected, "number");
            assert_eq!(actual, "string");
            assert!(actual_value.deep_equals(&s("b")));
            assert_eq!(position, 1);
        }
        _ => panic!("expected InvalidType"),
    }
    assert!(validate_args(&vec![s("a"), Variable::U64(1)], &types).is_ok());
}

#[test]
fn validation_checks_arity_first() {
    let types = vec![ArgumentType::Number];
    match validate_args(&vec![s("a"), s("b")], &types) {
        Err(RuntimeError::TooManyArguments { expected, actual }) => {
            assert_eq!((expected, actual), (1, 2));
        }
        _ => panic!("expected TooManyArguments"),
    }
}

#[test]
fn variadic_validation_uses_variadic_type() {
    let types = vec![ArgumentType::Object];
    let args = vec![Variable::Object(vec![]), Variable::Object(vec![]), Variable::Null];
    match validate_variadic_args(&args, &types, &ArgumentType::Object) {
        Err(RuntimeError::InvalidType { expected, actual, position, .. }) => {
            assert_eq!(expected, "object");
            assert_eq!(actual, "null");
            assert_eq!(position, 2);
        }
        _ => panic!("expected InvalidType"),
    }
    match validate_variadic_args(&vec![], &types, &ArgumentType::Object) {
        Err(RuntimeError::NotEnoughArguments { expected, actual }) => {
            assert_eq!((expected, actual), (1, 0));
        }
        _ => panic!("expected NotEnoughArguments"),
    }
}
