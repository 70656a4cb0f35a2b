use lib::error::{ErrorModel, RuntimeError, SearchResult};
use vstd::seq::Seq;
use lib::registry::{register_core_functions, CoreFunction, FloatFunction, Functions, Interpreter, JPFunction};
use lib::variable::{Ast, Json, Variable};
use lib::Float;

fn s(x: &str) -> Variable {
    Variable::String(x.to_string())
}

struct Doubler;

impl Interpreter for Doubler {
    // The verifier's names for what the methods give; compiled code never
    // calls them.
    fn interpreted(&self, _data: Json, _ast: Ast) -> Result<Json, ErrorModel> {
        panic!("read by the verifier only")
    }
    fn parsed(&self, _text: Seq<char>) -> Option<Json> {
        panic!("read by the verifier only")
    }
    fn rendered(&self, _value: Json) -> Seq<char> {
        panic!("read by the verifier only")
    }
    fn float_computed(&self, _function: FloatFunction, _args: Seq<Json>) -> Result<Json, ErrorModel> {
        panic!("read by the verifier only")
    }
    fn interpret(&self, data: &Variable, _ast: &Ast) -> SearchResult {
        match data {
            Variable::U64(n) => Ok(Variable::U64(n * 2)),
            other => Ok(other.deep_clone()),
        }
    }
    fn parse_json(&self, text: &String) -> Option<Variable> {
        text.parse::<u64>().ok().map(Variable::U64)
    }
    fn render_json(&self, value: &Variable) -> String {
        match value {
            Variable::U64(n) => n.to_string(),
            _ => "?".to_string(),
        }
    }
    fn float_function(&self, _function: FloatFunction, _args: Vec<Variable>) -> SearchResult {
        Ok(Variable::U64(0))
    }
}

#[test]
fn registering_binds_all_names() {
    let mut functions = Functions::new();
    register_core_functions(&mut functions);
    let names = [
        ("abs", CoreFunction::Abs),
        ("avg", CoreFunction::Avg),
        ("ceil", CoreFunction::Ceil),
        ("contains", CoreFunction::Contains),
        ("ends_with", CoreFunction::EndsWith),
        ("floor", CoreFunction::Floor),
        ("join", CoreFunction::Join),
        ("keys", CoreFunction::Keys),
        ("length", CoreFunction::Length),
        ("map", CoreFunction::MapEach),
        ("min", CoreFunction::Min),
        ("max", CoreFunction::Max),
        ("max_by", CoreFunction::MaxBy),
        ("min_by", CoreFunction::MinBy),
        ("merge", CoreFunction::Merge),
        ("not_null", CoreFunction::NotNull),
        ("reverse", CoreFunction::Reverse),
        ("sort", CoreFunction::Sort),
        ("sort_by", CoreFunction::SortBy),
        ("starts_with", CoreFunction::StartsWith),
        ("sum", CoreFunction::Sum),
        ("to_array", CoreFunction::ToArray),
        ("to_number", CoreFunction::ToNumber),
        ("to_string", CoreFunction::ToString),
        ("type", CoreFunction::Type),
        ("values", CoreFunction::Values),
    ];
    for (name, f) in names.iter() {
        assert_eq!(functions.get(&name.to_string()), Some(*f));
    }
    assert_eq!(functions.get(&"nope".to_string()), None);
}

#[test]
fn registering_keeps_other_names_and_replaces_core_ones() {
    let mut functions = Functions::new();
    functions.insert("custom".to_string(), CoreFunction::Keys);
    functions.insert("abs".to_string(), CoreFunction::Sort);
    register_core_functions(&mut functions);
    assert_eq!(functions.get(&"custom".to_string()), Some(CoreFunction::Keys));
    assert_eq!(functions.get(&"abs".to_string()), Some(CoreFunction::Abs));
}

#[test]
fn evaluate_dispatches_to_functions() {
    let r = CoreFunction::Abs.evaluate(vec![Variable::I64(-3)], &Doubler).unwrap();
    assert!(r.deep_equals(&Variable::I64(3)));
    let arr = Variable::Array(vec![Variable::U64(1), Variable::U64(2)]);
    let r = CoreFunction::MapEach
        .evaluate(vec![Variable::Expref(Ast { id: 0 }), arr], &Doubler)
        .unwrap();
    assert!(r.deep_equals(&Variable::Array(vec![Variable::U64(2), Variable::U64(4)])));
    let r = CoreFunction::ToNumber.evaluate(vec![s("42")], &Doubler).unwrap();
    assert!(r.deep_equals(&Variable::U64(42)));
    let r = CoreFunction::ToString.evaluate(vec![Variable::U64(7)], &Doubler).unwrap();
    assert!(r.deep_equals(&s("7")));
}

#[test]
fn evaluate_validates_before_float_work() {
    match CoreFunction::Avg.evaluate(vec![s("x")], &Doubler) {
        Err(RuntimeError::InvalidType { expected, .. }) => assert_eq!(expected, "array[number]"),
        _ => panic!("expected InvalidType"),
    }
    let r = CoreFunction::Sum.evaluate(vec![Variable::Array(vec![])], &Doubler).unwrap();
    assert!(r.deep_equals(&Variable::U64(0)));
    let r = CoreFunction::Ceil.evaluate(vec![Variable::U64(1)], &Doubler).unwrap();
    let one = Variable::F64(Float::from_bits(1.0f64.to_bits()).unwrap());
    assert!(r.deep_equals(&one));
}

#[test]
fn floats_read_from_bits() {
    let f = Float::from_bits(1.5f64.to_bits()).unwrap();
    assert_eq!((f.mantissa(), f.exponent()), (3, -1));
    let f = Float::from_bits((-8.0f64).to_bits()).unwrap();
    assert_eq!((f.mantissa(), f.exponent()), (-1, 3));
    let zero = Float::from_bits(0.0f64.to_bits()).unwrap();
    let minus_zero = Float::from_bits((-0.0f64).to_bits()).unwrap();
    assert_eq!(zero, minus_zero);
    assert_eq!((zero.mantissa(), zero.exponent()), (0, 0));
    let tiny = Float::from_bits(1u64).unwrap();
    assert_eq!((tiny.mantissa(), tiny.exponent()), (1, -1074));
    let big = Float::from_bits(f64::MAX.to_bits()).unwrap();
    assert_eq!((big.mantissa(), big.exponent()), ((1i64 << 53) - 1, 971));
    assert!(Float::from_bits(f64::NAN.to_bits()).is_none());
    assert!(Float::from_bits(f64::INFINITY.to_bits()).is_none());
}

#[test]
fn equal_values_give_equal_floats() {
    let a = Float::from_bits(0.1f64.to_bits()).unwrap();
    let b = Float::from_bits((0.05f64 * 2.0).to_bits()).unwrap();
    assert_eq!(a, b);
    let c = Float::from_bits(2.0f64.to_bits()).unwrap();
    assert_eq!((c.mantissa(), c.exponent()), (1, 1));
}

struct Counting {
    calls: std::cell::Cell<usize>,
}

impl Interpreter for Counting {
    // The verifier's names for what the methods give; compiled code never
    // calls them.
    fn interpreted(&self, _data: Json, _ast: Ast) -> Result<Json, ErrorModel> {
        panic!("read by the verifier only")
    }
    fn parsed(&self, _text: Seq<char>) -> Option<Json> {
        panic!("read by the verifier only")
    }
    fn rendered(&self, _value: Json) -> Seq<char> {
        panic!("read by the verifier only")
    }
    fn float_computed(&self, _function: FloatFunction, _args: Seq<Json>) -> Result<Json, ErrorModel> {
        panic!("read by the verifier only")
    }
    fn interpret(&self, data: &Variable, _ast: &Ast) -> SearchResult {
        self.calls.set(self.calls.get() + 1);
        match data {
            Variable::Bool(_) => Err(RuntimeError::UnknownFunction("boom".to_string())),
            other => Ok(other.deep_clone()),
        }
    }
    fn parse_json(&self, _text: &String) -> Option<Variable> {
        None
    }
    fn render_json(&self, _value: &Variable) -> String {
        String::new()
    }
    fn float_function(&self, _function: FloatFunction, _args: Vec<Variable>) -> SearchResult {
        Ok(Variable::Null)
    }
}

#[test]
fn evaluation_stops_at_the_first_failure() {
    let expref = Variable::Expref(Ast { id: 0 });
    let counting = Counting { calls: std::cell::Cell::new(0) };
    let arr = Variable::Array(vec![Variable::U64(1), Variable::Bool(true), Variable::U64(3)]);
    match CoreFunction::MapEach.evaluate(vec![expref.deep_clone(), arr], &counting) {
        Err(RuntimeError::UnknownFunction(name)) => assert_eq!(name, "boom"),
        _ => panic!("expected the interpreter's error"),
    }
    assert_eq!(counting.calls.get(), 2);

    let counting = Counting { calls: std::cell::Cell::new(0) };
    let arr = Variable::Array(vec![Variable::U64(1), s("x"), Variable::Bool(true)]);
    match CoreFunction::MaxBy.evaluate(vec![arr, expref.deep_clone()], &counting) {
        Err(RuntimeError::InvalidReturnType { expected, actual, invocation, .. }) => {
            assert_eq!(expected, "expression->number");
            assert_eq!(actual, "string");
            assert_eq!(invocation, 1);
        }
        _ => panic!("expected InvalidReturnType"),
    }
    assert_eq!(counting.calls.get(), 2);

    let counting = Counting { calls: std::cell::Cell::new(0) };
    let arr = Variable::Array(vec![Variable::Null, Variable::U64(2)]);
    match CoreFunction::SortBy.evaluate(vec![arr, expref.deep_clone()], &counting) {
        Err(RuntimeError::InvalidReturnType { expected, invocation, .. }) => {
            assert_eq!(expected, "expression->string|expression->number");
            assert_eq!(invocation, 1);
        }
        _ => panic!("expected InvalidReturnType"),
    }
    assert_eq!(counting.calls.get(), 1);

    let counting = Counting { calls: std::cell::Cell::new(0) };
    let arr = Variable::Array(vec![Variable::U64(5), Variable::U64(9), Variable::U64(2)]);
    let r = CoreFunction::MinBy.evaluate(vec![arr, expref], &counting).unwrap();
    assert!(r.deep_equals(&Variable::U64(2)));
    assert_eq!(counting.calls.get(), 3);
}

#[test]
fn avg_of_no_numbers_is_null() {
    let r = CoreFunction::Avg.evaluate(vec![Variable::Array(vec![])], &Doubler).unwrap();
    assert!(r.deep_equals(&Variable::Null));
    let r = CoreFunction::Avg.evaluate(vec![Variable::Array(vec![Variable::U64(4)])], &Doubler).unwrap();
    assert!(r.deep_equals(&Variable::U64(0)));
}
