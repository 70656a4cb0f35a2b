use lib::error::{RuntimeError, SearchResult};
use lib::expref::{map_each, max_by, min_by, sort_by};
use lib::ordering::{max, min, sort};
use lib::text::Order;
use lib::variable::{Ast, Variable};
use lib::Float;

fn s(x: &str) -> Variable {
    Variable::String(x.to_string())
}

fn float(x: f64) -> Variable {
    Variable::F64(Float::from_bits(x.to_bits()).unwrap())
}

fn same(a: &Variable, b: &Variable) -> bool {
    a.deep_equals(b)
}

fn ok(r: SearchResult) -> Variable {
    match r {
        Ok(v) => v,
        Err(e) => panic!("unexpected error {:?}", e),
    }
}

fn expref() -> Variable {
    Variable::Expref(Ast { id: 7 })
}

#[test]
fn numbers_compare_by_value() {
    assert_eq!(Variable::U64(2).compare(&float(1.5)), Order::Greater);
    assert_eq!(Variable::I64(-1).compare(&Variable::U64(0)), Order::Less);
    assert_eq!(Variable::U64(1).compare(&Variable::I64(1)), Order::Equal);
    assert_eq!(float(1.0).compare(&Variable::U64(1)), Order::Equal);
    assert_eq!(Variable::U64(u64::MAX).compare(&float(1e19)), Order::Greater);
    assert_eq!(Variable::U64(u64::MAX).compare(&float(1.9e19)), Order::Less);
    assert_eq!(Variable::U64(1 << 63).compare(&float(9223372036854775808.0)), Order::Equal);
    assert_eq!(float(-0.0).compare(&Variable::I64(0)), Order::Equal);
    assert_eq!(float(1e-300).compare(&Variable::U64(0)), Order::Greater);
    assert_eq!(float(1e300).compare(&Variable::U64(u64::MAX)), Order::Greater);
    assert_eq!(float(-1e300).compare(&Variable::I64(i64::MIN)), Order::Less);
}

#[test]
fn strings_compare_by_code_point() {
    assert_eq!(s("abc").compare(&s("abd")), Order::Less);
    assert_eq!(s("ab").compare(&s("abc")), Order::Less);
    assert_eq!(s("b").compare(&s("abc")), Order::Greater);
    assert_eq!(s("é").compare(&s("z")), Order::Greater);
    assert_eq!(s("x").compare(&s("x")), Order::Equal);
}

#[test]
fn different_types_compare_equal() {
    assert_eq!(s("1").compare(&Variable::U64(1)), Order::Equal);
    assert_eq!(Variable::Null.compare(&Variable::Bool(true)), Order::Equal);
}

#[test]
fn max_and_min_of_numbers() {
    let arr = Variable::Array(vec![Variable::U64(3), float(7.5), Variable::I64(-2)]);
    assert!(same(&ok(max(vec![arr.deep_clone()])), &float(7.5)));
    assert!(same(&ok(min(vec![arr])), &Variable::I64(-2)));
}

#[test]
fn max_keeps_last_of_equals_min_keeps_first() {
    let arr = Variable::Array(vec![Variable::U64(1), Variable::I64(1), float(1.0)]);
    assert!(same(&ok(max(vec![arr.deep_clone()])), &float(1.0)));
    assert!(same(&ok(min(vec![arr])), &Variable::U64(1)));
}

#[test]
fn max_and_min_of_strings_and_empty() {
    let arr = Variable::Array(vec![s("b"), s("c"), s("a")]);
    assert!(same(&ok(max(vec![arr.deep_clone()])), &s("c")));
    assert!(same(&ok(min(vec![arr])), &s("a")));
    assert!(same(&ok(max(vec![Variable::Array(vec![])])), &Variable::Null));
}

#[test]
fn max_rejects_mixed_array() {
    match max(vec![Variable::Array(vec![s("a"), Variable::U64(1)])]) {
        Err(RuntimeError::InvalidType { expected, actual, position, .. }) => {
            assert_eq!(expected, "array[string|number]");
            assert_eq!(actual, "array");
            assert_eq!(position, 0);
        }
        _ => panic!("expected InvalidType"),
    }
}

#[test]
fn sort_is_stable_and_ordered() {
    let arr = Variable::Array(vec![Variable::I64(2), Variable::U64(1), float(-0.5), Variable::I64(1)]);
    let want = Variable::Array(vec![float(-0.5), Variable::U64(1), Variable::I64(1), Variable::I64(2)]);
    assert!(same(&ok(sort(vec![arr])), &want));
    let strs = Variable::Array(vec![s("b"), s("a"), s("c")]);
    assert!(same(&ok(sort(vec![strs])), &Variable::Array(vec![s("a"), s("b"), s("c")])));
}

#[test]
fn sort_twice_is_sort_once() {
    let arr = Variable::Array(vec![s("d"), s("a"), s("c"), s("b")]);
    let once = ok(sort(vec![arr]));
    let twice = ok(sort(vec![once.deep_clone()]));
    assert!(same(&once, &twice));
}

#[test]
fn map_collects_results() {
    let arr = Variable::Array(vec![Variable::U64(1), Variable::U64(2)]);
    let results: Vec<SearchResult> = vec![Ok(s("a")), Ok(s("b"))];
    let r = ok(map_each(vec![expref(), arr], results));
    assert!(same(&r, &Variable::Array(vec![s("a"), s("b")])));
}

#[test]
fn map_reports_first_failure() {
    let arr = Variable::Array(vec![Variable::U64(1), Variable::U64(2)]);
    let results: Vec<SearchResult> = vec![
        Ok(s("a")),
        Err(RuntimeError::UnknownFunction("f".to_string())),
    ];
    match map_each(vec![expref(), arr], results) {
        Err(RuntimeError::UnknownFunction(name)) => assert_eq!(name, "f"),
        _ => panic!("expected the failure"),
    }
}

#[test]
fn max_by_and_min_by_pick_first_extreme() {
    let arr = Variable::Array(vec![s("a"), s("b"), s("c"), s("d")]);
    let results = || -> Vec<SearchResult> {
        vec![Ok(Variable::U64(2)), Ok(Variable::U64(5)), Ok(Variable::U64(1)), Ok(Variable::U64(5))]
    };
    assert!(same(&ok(max_by(vec![arr.deep_clone(), expref()], results())), &s("b")));
    assert!(same(&ok(min_by(vec![arr.deep_clone(), expref()], results())), &s("c")));
    assert!(same(&ok(max_by(vec![Variable::Array(vec![]), expref()], vec![])), &Variable::Null));
}

#[test]
fn max_by_rejects_boolean_results() {
    let arr = Variable::Array(vec![s("a")]);
    match max_by(vec![arr, expref()], vec![Ok(Variable::Bool(true))]) {
        Err(RuntimeError::InvalidReturnType { expected, actual, position, invocation, .. }) => {
            assert_eq!(expected, "expression->number|expression->string");
            assert_eq!(actual, "boolean");
            assert_eq!(position, 1);
            assert_eq!(invocation, 1);
        }
        _ => panic!("expected InvalidReturnType"),
    }
}

#[test]
fn min_by_rejects_mixed_results() {
    let arr = Variable::Array(vec![s("a"), s("b"), s("c")]);
    let results: Vec<SearchResult> = vec![Ok(Variable::U64(1)), Ok(Variable::U64(2)), Ok(s("x"))];
    match min_by(vec![arr, expref()], results) {
        Err(RuntimeError::InvalidReturnType { expected, actual, invocation, .. }) => {
            assert_eq!(expected, "expression->number");
            assert_eq!(actual, "string");
            assert_eq!(invocation, 2);
        }
        _ => panic!("expected InvalidReturnType"),
    }
}

#[test]
fn sort_by_checks_results_and_sorts_by_key() {
    let arr = Variable::Array(vec![s("b"), s("a")]);
    let results: Vec<SearchResult> = vec![Ok(Variable::U64(2)), Ok(Variable::U64(1))];
    let r = ok(sort_by(vec![arr.deep_clone(), expref()], results));
    assert!(same(&r, &Variable::Array(vec![s("a"), s("b")])));
    match sort_by(vec![arr, expref()], vec![Ok(Variable::Null), Ok(Variable::Null)]) {
        Err(RuntimeError::InvalidReturnType { expected, actual, .. }) => {
            assert_eq!(expected, "expression->string|expression->number");
            assert_eq!(actual, "null");
        }
        _ => panic!("expected InvalidReturnType"),
    }
}

#[test]
fn sort_by_is_stable() {
    // elements tagged 0, 1, 2 with keys 2, 1, 2
    let arr = Variable::Array(vec![Variable::U64(0), Variable::U64(1), Variable::U64(2)]);
    let results: Vec<SearchResult> = vec![Ok(Variable::U64(2)), Ok(Variable::U64(1)), Ok(Variable::U64(2))];
    let r = ok(sort_by(vec![arr, expref()], results));
    let want = Variable::Array(vec![Variable::U64(1), Variable::U64(0), Variable::U64(2)]);
    assert!(same(&r, &want));
    let arr = Variable::Array(vec![s("x"), s("y"), s("z")]);
    let results: Vec<SearchResult> = vec![Ok(s("b")), Ok(s("a")), Ok(s("b"))];
    let r = ok(sort_by(vec![arr, expref()], results));
    assert!(same(&r, &Variable::Array(vec![s("y"), s("x"), s("z")])));
}

#[test]
fn sort_by_rejects_argument_order() {
    match sort_by(vec![expref(), Variable::Array(vec![])], vec![]) {
        Err(RuntimeError::InvalidType { expected, actual, position, .. }) => {
            assert_eq!(expected, "array");
            assert_eq!(actual, "expref");
            assert_eq!(position, 0);
        }
        _ => panic!("expected InvalidType"),
    }
}
