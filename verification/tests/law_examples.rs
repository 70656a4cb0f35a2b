use lib::functions::{ends_with, join, keys, length, starts_with, values};
use lib::objects::merge;
use lib::expref::sort_by;
use lib::error::SearchResult;
use lib::variable::Ast;
use lib::ArgumentType;
use lib::ordering::{max, min};
use lib::registry::{register_core_functions, CoreFunction, Functions};
use lib::text::Order;
use lib::variable::Variable;
use lib::Float;

fn s(x: &str) -> Variable {
    Variable::String(x.to_string())
}

fn float(x: f64) -> Variable {
    Variable::F64(Float::from_bits(x.to_bits()).unwrap())
}

#[test]
fn order_reads_backwards_when_swapped() {
    let pairs = vec![(s("a"), s("b")), (Variable::U64(3), float(2.5)), (Variable::I64(-4), Variable::I64(-4))];
    for (a, b) in pairs.iter() {
        let there = a.compare(b);
        let back = b.compare(a);
        let flipped = match there {
            Order::Less => Order::Greater,
            Order::Equal => Order::Equal,
            Order::Greater => Order::Less,
        };
        assert_eq!(back, flipped);
    }
}

#[test]
fn max_is_not_below_any_element() {
    let elems = vec![Variable::U64(4), float(4.25), Variable::I64(-9), Variable::U64(0)];
    let m = max(vec![Variable::Array(elems.iter().map(|v| v.deep_clone()).collect())]).unwrap();
    for e in elems.iter() {
        assert_ne!(e.compare(&m), Order::Greater);
    }
    let l = min(vec![Variable::Array(elems.iter().map(|v| v.deep_clone()).collect())]).unwrap();
    for e in elems.iter() {
        assert_ne!(l.compare(e), Order::Greater);
    }
}

#[test]
fn keys_values_and_length_agree() {
    let o = Variable::Object(vec![
        ("a".to_string(), Variable::U64(1)),
        ("b".to_string(), Variable::Null),
        ("c".to_string(), s("x")),
    ]);
    let k = keys(vec![o.deep_clone()]).unwrap();
    let v = values(vec![o.deep_clone()]).unwrap();
    let n = length(vec![o]).unwrap();
    match (k, v) {
        (Variable::Array(k), Variable::Array(v)) => {
            assert_eq!(k.len(), 3);
            assert_eq!(v.len(), 3);
            assert!(n.deep_equals(&Variable::U64(3)));
        }
        _ => panic!("expected arrays"),
    }
}

#[test]
fn strings_start_and_end_with_themselves() {
    for word in ["", "a", "jmespath"].iter() {
        assert!(starts_with(vec![s(word), s(word)]).unwrap().deep_equals(&Variable::Bool(true)));
        assert!(ends_with(vec![s(word), s(word)]).unwrap().deep_equals(&Variable::Bool(true)));
        assert!(starts_with(vec![s(word), s("")]).unwrap().deep_equals(&Variable::Bool(true)));
    }
}

#[test]
fn joining_one_string_gives_it() {
    let r = join(vec![s("--"), Variable::Array(vec![s("only")])]).unwrap();
    assert!(r.deep_equals(&s("only")));
}

#[test]
fn registering_twice_is_registering_once() {
    let mut once = Functions::new();
    register_core_functions(&mut once);
    let mut twice = Functions::new();
    register_core_functions(&mut twice);
    register_core_functions(&mut twice);
    for name in ["abs", "sort_by", "values", "type", "map"].iter() {
        assert_eq!(once.get(&name.to_string()), twice.get(&name.to_string()));
    }
    assert_eq!(twice.get(&"map".to_string()), Some(CoreFunction::MapEach));
}

#[test]
fn keys_and_values_of_a_merged_object_rebuild_it() {
    let a = Variable::Object(vec![("m".to_string(), Variable::U64(1)), ("b".to_string(), s("x"))]);
    let b = Variable::Object(vec![("z".to_string(), Variable::Null), ("m".to_string(), Variable::U64(9))]);
    let merged = merge(vec![a, b]).unwrap();
    let k = keys(vec![merged.deep_clone()]).unwrap();
    let v = values(vec![merged.deep_clone()]).unwrap();
    match (k, v) {
        (Variable::Array(k), Variable::Array(v)) => {
            let names: Vec<String> = k
                .iter()
                .map(|x| match x {
                    Variable::String(t) => t.clone(),
                    _ => panic!("expected a string key"),
                })
                .collect();
            assert_eq!(names, vec!["b".to_string(), "m".to_string(), "z".to_string()]);
            assert!(v[0].deep_equals(&s("x")));
            assert!(v[1].deep_equals(&Variable::U64(9)));
            assert!(v[2].deep_equals(&Variable::Null));
        }
        _ => panic!("expected arrays"),
    }
}

#[test]
fn accepting_grows_with_more_types() {
    let nums = Variable::Array(vec![Variable::U64(1), Variable::I64(-2)]);
    let one = ArgumentType::OneOf(vec![ArgumentType::String]);
    let more = ArgumentType::OneOf(vec![ArgumentType::String, ArgumentType::Number]);
    assert!(one.is_valid(&s("x")) && more.is_valid(&s("x")));
    assert!(!one.is_valid(&Variable::U64(3)) && more.is_valid(&Variable::U64(3)));
    let h = ArgumentType::HomogeneousArray(vec![ArgumentType::Number]);
    let h2 = ArgumentType::HomogeneousArray(vec![ArgumentType::Number, ArgumentType::String]);
    assert!(h.is_valid(&nums) && h2.is_valid(&nums) && ArgumentType::Array.is_valid(&nums));
    assert!(ArgumentType::Any.is_valid(&nums));
}

#[test]
fn sort_by_with_distinct_keys_ignores_input_order() {
    let e = Variable::Expref(Ast { id: 1 });
    let one: Vec<SearchResult> = vec![Ok(Variable::U64(3)), Ok(Variable::U64(1)), Ok(Variable::U64(2))];
    let two: Vec<SearchResult> = vec![Ok(Variable::U64(2)), Ok(Variable::U64(3)), Ok(Variable::U64(1))];
    let a = sort_by(vec![Variable::Array(vec![s("c"), s("a"), s("b")]), e.deep_clone()], one).unwrap();
    let b = sort_by(vec![Variable::Array(vec![s("b"), s("c"), s("a")]), e], two).unwrap();
    assert!(a.deep_equals(&b));
    assert!(a.deep_equals(&Variable::Array(vec![s("a"), s("b"), s("c")])));
}

#[test]
fn merging_valid_objects_keeps_nested_objects_valid() {
    let inner = Variable::Object(vec![("p".to_string(), Variable::U64(1)), ("q".to_string(), Variable::U64(2))]);
    let a = Variable::Object(vec![("y".to_string(), inner.deep_clone())]);
    let b = Variable::Object(vec![("x".to_string(), Variable::Null)]);
    let merged = merge(vec![a, b]).unwrap();
    let v = values(vec![merged]).unwrap();
    match v {
        Variable::Array(v) => {
            assert_eq!(v.len(), 2);
            assert!(v[0].deep_equals(&Variable::Null));
            assert!(v[1].deep_equals(&inner));
        }
        _ => panic!("expected an array"),
    }
}

#[test]
fn registry_answers_membership_and_types_clone() {
    let mut functions = Functions::new();
    register_core_functions(&mut functions);
    assert!(functions.contains_key(&"sort_by".to_string()));
    assert!(!functions.contains_key(&"sorted".to_string()));
    let t = ArgumentType::HomogeneousArray(vec![ArgumentType::Number, ArgumentType::String]);
    let c = t.clone();
    assert_eq!(t, c);
    assert_eq!(c.to_string(), "array[number|string]");
}
