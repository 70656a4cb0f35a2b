//! The built-in functions by name, and how a function call is evaluated.

use vstd::prelude::*;
use crate::error::{ErrorModel, SearchResult, result_view};
use crate::expref::{
    stops,
    agrees_until_stop,
    lemma_map_agrees,
    lemma_by_agrees,
    lemma_map_args_shape,
    lemma_by_args_shape,
    ok_value,
    extreme_by_expected,
    sort_by_expected,
    map_signature,
    by_signature,
    map_each,
    max_by,
    min_by,
    sort_by,
    map_result,
    extreme_by_result,
    sort_by_result,
    result_views,
    ByMode,
};
use crate::functions::{
    str_of,
    elems_of,
    abs,
    contains,
    ends_with,
    starts_with,
    join,
    length,
    reverse,
    not_null,
    to_array,
    type_of_value,
    keys,
    values,
    to_number,
    to_string,
    check_numbers_args,
    ceil,
    floor,
    ceil_result,
    floor_result,
    abs_defined,
    abs_result,
    contains_result,
    ends_with_result,
    starts_with_result,
    join_result,
    length_result,
    reverse_result,
    not_null_result,
    to_array_result,
    type_result,
    keys_result,
    values_result,
    to_number_result,
    to_string_result,
    numbers_signature,
    option_view,
};
use crate::objects::{merge, merge_result};
use crate::ordering::{max, min, sort, max_result, min_result, sort_result};
use crate::text::same_string;
use crate::validate::check_args;
use crate::variable::{Variable, Json, JsonType, Ast, type_of, views, lemma_views};

verus! {

/// The built-in JMESPath functions.
#[derive(PartialEq, Eq, Structural, Clone, Copy, Debug)]
pub enum CoreFunction {
    Abs,
    Avg,
    Ceil,
    Contains,
    EndsWith,
    Floor,
    Join,
    Keys,
    Length,
    MapEach,
    Max,
    Min,
    MaxBy,
    MinBy,
    Merge,
    NotNull,
    Reverse,
    Sort,
    SortBy,
    StartsWith,
    Sum,
    ToArray,
    ToNumber,
    ToString,
    Type,
    Values,
}

/// The functions whose results are computed in floating point.
#[derive(PartialEq, Eq, Structural, Clone, Copy, Debug)]
pub enum FloatFunction {
    Avg,
    Sum,
}

/// What evaluating a function call needs from the rest of the engine.  Each
/// method's result is a function of the interpreter and the method's
/// arguments, named by the spec function beside it.
pub trait Interpreter {
    /// What applying the compiled expression `ast` to `data` gives.
    spec fn interpreted(&self, data: Json, ast: Ast) -> Result<Json, ErrorModel>;

    /// What reading `text` as JSON gives: `None` where it is not valid JSON.
    spec fn parsed(&self, text: Seq<char>) -> Option<Json>;

    /// The JSON text of a value.
    spec fn rendered(&self, value: Json) -> Seq<char>;

    /// What `avg` or `sum` computes in floating point on arguments that passed
    /// the function's validation.
    spec fn float_computed(&self, function: FloatFunction, args: Seq<Json>) -> Result<
        Json,
        ErrorModel,
    >;

    /// Applies the compiled expression `ast` to `data`.
    fn interpret(&self, data: &Variable, ast: &Ast) -> (r: SearchResult)
        ensures
            result_view(r) == self.interpreted(data@, *ast),
    ;

    /// Reads JSON text; `None` where it is not valid JSON.
    fn parse_json(&self, text: &String) -> (r: Option<Variable>)
        ensures
            option_view(r) == self.parsed(text@),
    ;

    /// The JSON text of a value.
    fn render_json(&self, value: &Variable) -> (r: String)
        ensures
            r@ == self.rendered(value@),
    ;

    /// Computes `avg` or `sum` in floating point, on arguments that passed
    /// the function's validation.
    fn float_function(&self, function: FloatFunction, args: Vec<Variable>) -> (r: SearchResult)
        ensures
            result_view(r) == self.float_computed(function, views(args@)),
    ;
}

/// JMESPath function
pub trait JPFunction {
    /// The arguments on which `evaluate` is defined.
    spec fn defined_on(&self, args: Seq<Json>) -> bool;

    /// Evaluates a function with the given arguments
    fn evaluate<I: Interpreter>(&self, args: Vec<Variable>, intr: &I) -> SearchResult
        requires
            self.defined_on(views(args@)),
    ;
}

/// The result of a built-in function that needs nothing from the interpreter,
/// or `None` for one that does.
pub open spec fn direct_result(f: CoreFunction, args: Seq<Json>) -> Option<
    Result<Json, ErrorModel>,
> {
    match f {
        CoreFunction::Abs => Some(abs_result(args)),
        CoreFunction::Contains => Some(contains_result(args)),
        CoreFunction::EndsWith => Some(ends_with_result(args)),
        CoreFunction::Join => Some(join_result(args)),
        CoreFunction::Keys => Some(keys_result(args)),
        CoreFunction::Length => Some(length_result(args)),
        CoreFunction::Max => Some(max_result(args)),
        CoreFunction::Min => Some(min_result(args)),
        CoreFunction::Merge => Some(merge_result(args)),
        CoreFunction::NotNull => Some(not_null_result(args)),
        CoreFunction::Reverse => Some(reverse_result(args)),
        CoreFunction::Sort => Some(sort_result(args)),
        CoreFunction::StartsWith => Some(starts_with_result(args)),
        CoreFunction::ToArray => Some(to_array_result(args)),
        CoreFunction::Type => Some(type_result(args)),
        CoreFunction::Values => Some(values_result(args)),
        CoreFunction::Ceil => Some(ceil_result(args)),
        CoreFunction::Floor => Some(floor_result(args)),
        _ => None,
    }
}

/// The expression of an expression-reference value.
pub open spec fn expref_ast(e: Json) -> Ast {
    match e {
        Json::Expref(a) => a,
        _ => Ast { id: 0 },
    }
}

/// What applying the expression of `e` to each of `vals` gives, in order.
pub open spec fn applied<I: Interpreter>(intr: &I, vals: Seq<Json>, e: Json) -> Seq<
    Result<Json, ErrorModel>,
> {
    Seq::new(vals.len(), |i: int| intr.interpreted(vals[i], expref_ast(e)))
}

/// What evaluating a built-in function gives: the function's result for the
/// functions that need nothing from the interpreter; for the others, their
/// result for what the interpreter gives: the expression applied to each
/// element of the array argument, the string argument read as JSON, the
/// argument's JSON text, or, for `avg` and `sum` once their arguments pass
/// validation, what the interpreter computes in floating point (`avg` of no
/// numbers is null).
pub open spec fn core_result<I: Interpreter>(f: CoreFunction, args: Seq<Json>, intr: &I) -> Result<
    Json,
    ErrorModel,
> {
    match f {
        CoreFunction::MapEach => map_result(args, applied(intr, elems_of(args[1]), args[0])),
        CoreFunction::MaxBy => extreme_by_result(
            args,
            applied(intr, elems_of(args[0]), args[1]),
            ByMode::Greatest,
        ),
        CoreFunction::MinBy => extreme_by_result(
            args,
            applied(intr, elems_of(args[0]), args[1]),
            ByMode::Least,
        ),
        CoreFunction::SortBy => sort_by_result(args, applied(intr, elems_of(args[0]), args[1])),
        CoreFunction::ToNumber => to_number_result(args, intr.parsed(str_of(args[0]))),
        CoreFunction::ToString => to_string_result(args, intr.rendered(args[0])),
        CoreFunction::Avg => match check_args(args, numbers_signature()) {
            Some(e) => Err(e),
            None => if elems_of(args[0]).len() == 0 {
                Ok(Json::Null)
            } else {
                intr.float_computed(FloatFunction::Avg, args)
            },
        },
        CoreFunction::Sum => match check_args(args, numbers_signature()) {
            Some(e) => Err(e),
            None => intr.float_computed(FloatFunction::Sum, args),
        },
        _ => match direct_result(f, args) {
            Some(r) => r,
            None => Err(ErrorModel::UnknownFunction(Seq::empty())),
        },
    }
}

/// Whether evaluation stops after result `k` (see [`stops`]).
fn stops_at(r: &SearchResult, k: usize, first: JsonType, check_types: bool) -> (b: bool)
    ensures
        b == stops(result_view(*r), k as int, first, check_types),
{
    match r {
        Err(_) => true,
        Ok(m) => {
            let t = m.get_type();
            check_types && (if k == 0 {
                t != JsonType::String && t != JsonType::Number
            } else {
                t != first
            })
        },
    }
}

/// The results of applying the expression of an expression-reference
/// argument to each element of an array argument, in order (none where the
/// arguments are not of that shape).  The interpreter is not called again once
/// a result stops evaluation (see [`stops`]); each later element then gets a
/// null result, which nothing reads.
fn apply_to_elements<I: Interpreter>(
    args: &Vec<Variable>,
    array_at: usize,
    expref_at: usize,
    check_types: bool,
    intr: &I,
) -> (r: Vec<SearchResult>)
    requires
        array_at < args.len(),
        expref_at < args.len(),
    ensures
        args@[array_at as int] is Array ==> args@[expref_at as int] is Expref ==> agrees_until_stop(
            result_views(r@),
            applied(intr, views(args@[array_at as int]->Array_0@), args@[expref_at as int]@),
            check_types,
        ),
{
    let mut out: Vec<SearchResult> = Vec::new();
    match (&args[array_at], &args[expref_at]) {
        (Variable::Array(vals), Variable::Expref(ast)) => {
            let ghost full = applied(intr, views(vals@), Json::Expref(*ast));
            proof {
                lemma_views(vals@);
            }
            let mut i: usize = 0;
            let mut stopped = false;
            let mut first = JsonType::Null;
            let ghost mut s: int = 0;
            while i < vals.len()
                invariant
                    i <= vals.len(),
                    out.len() == i,
                    full == applied(intr, views(vals@), Json::Expref(*ast)),
                    full.len() == vals.len(),
                    forall|j: int| 0 <= j < vals.len() ==> #[trigger] views(vals@)[j] == vals@[j]@,
                    !stopped ==> forall|j: int| 0 <= j < i ==> result_view(#[trigger] out@[j]) == full[j],
                    !stopped && i > 0 ==> full[0] is Ok && first == type_of(ok_value(full[0])),
                    stopped ==> 0 <= s < i && (forall|j: int|
                        0 <= j <= s ==> result_view(#[trigger] out@[j]) == full[j]) && stops(
                        full[s],
                        s,
                        type_of(ok_value(full[0])),
                        check_types,
                    ),
                decreases vals.len() - i,
            {
                if stopped {
                    out.push(Ok(Variable::Null));
                } else {
                    let r = intr.interpret(&vals[i], ast);
                    assert(result_view(r) == full[i as int]);
                    if i == 0 {
                        if let Ok(m) = &r {
                            first = m.get_type();
                        }
                    }
                    stopped = stops_at(&r, i, first, check_types);
                    proof {
                        if stopped {
                            s = i as int;
                        }
                    }
                    out.push(r);
                }
                i = i + 1;
            }
            proof {
                let rs = result_views(out@);
                if !stopped {
                    assert(rs =~= full);
                } else {
                    assert(forall|j: int| 0 <= j <= s ==> #[trigger] rs[j] == full[j]);
                }
            }
        },
        _ => {},
    }
    out
}

impl JPFunction for CoreFunction {
    open spec fn defined_on(&self, args: Seq<Json>) -> bool {
        &&& *self == CoreFunction::Abs ==> abs_defined(args)
    }

    fn evaluate<I: Interpreter>(&self, args: Vec<Variable>, intr: &I) -> (r: SearchResult)
        ensures
            result_view(r) == core_result(*self, views(args@), intr),
    {
        proof {
            lemma_views(args@);
        }
        match self {
            CoreFunction::Abs => abs(args),
            CoreFunction::Contains => contains(args),
            CoreFunction::EndsWith => ends_with(args),
            CoreFunction::Join => join(args),
            CoreFunction::Keys => keys(args),
            CoreFunction::Length => length(args),
            CoreFunction::Max => max(args),
            CoreFunction::Min => min(args),
            CoreFunction::Merge => merge(args),
            CoreFunction::NotNull => not_null(args),
            CoreFunction::Reverse => reverse(args),
            CoreFunction::Sort => sort(args),
            CoreFunction::StartsWith => starts_with(args),
            CoreFunction::ToArray => to_array(args),
            CoreFunction::Type => type_of_value(args),
            CoreFunction::Values => values(args),
            CoreFunction::Avg => {
                check_numbers_args(&args)?;
                proof {
                    crate::validate::lemma_check_args_ok(views(args@), numbers_signature());
                }
                // the mean of no numbers is not a number
                if let Variable::Array(vals) = &args[0] {
                    if vals.len() == 0 {
                        proof {
                            lemma_views(vals@);
                        }
                        return Ok(Variable::Null);
                    }
                    proof {
                        lemma_views(vals@);
                    }
                }
                intr.float_function(FloatFunction::Avg, args)
            },
            CoreFunction::Sum => {
                check_numbers_args(&args)?;
                intr.float_function(FloatFunction::Sum, args)
            },
            CoreFunction::Ceil => ceil(args),
            CoreFunction::Floor => floor(args),
            CoreFunction::ToNumber => {
                let parsed = if args.len() == 1 {
                    match &args[0] {
                        Variable::String(s) => intr.parse_json(s),
                        _ => None,
                    }
                } else {
                    None
                };
                let ghost a = views(args@);
                let r = to_number(args, parsed);
                assert(result_view(r) == to_number_result(a, intr.parsed(str_of(a[0]))));
                r
            },
            CoreFunction::ToString => {
                let rendered = if args.len() == 1 {
                    match &args[0] {
                        Variable::String(_) => String::new(),
                        other => intr.render_json(other),
                    }
                } else {
                    String::new()
                };
                let ghost a = views(args@);
                let r = to_string(args, rendered);
                assert(result_view(r) == to_string_result(a, intr.rendered(a[0])));
                r
            },
            CoreFunction::MapEach => {
                let results = if args.len() == 2 {
                    apply_to_elements(&args, 1, 0, false, intr)
                } else {
                    Vec::new()
                };
                let ghost a = views(args@);
                let ghost rs = result_views(results@);
                let ghost full = applied(intr, elems_of(a[1]), a[0]);
                proof {
                    if check_args(a, map_signature()) is None {
                        lemma_map_args_shape(args@);
                        assert(a[1] == args@[1]@ && a[0] == args@[0]@);
                        lemma_map_agrees(a, rs, full);
                    }
                }
                let r = map_each(args, results);
                assert(result_view(r) == map_result(a, full));
                r
            },
            CoreFunction::MaxBy => {
                let results = if args.len() == 2 {
                    apply_to_elements(&args, 0, 1, true, intr)
                } else {
                    Vec::new()
                };
                let ghost a = views(args@);
                let ghost rs = result_views(results@);
                let ghost full = applied(intr, elems_of(a[0]), a[1]);
                proof {
                    if check_args(a, by_signature()) is None {
                        lemma_by_args_shape(args@);
                        assert(a[0] == args@[0]@ && a[1] == args@[1]@);
                        if full.len() > 0 {
                            lemma_by_agrees(rs, full, ByMode::Greatest, extreme_by_expected());
                        }
                    }
                }
                let r = max_by(args, results);
                assert(result_view(r) == extreme_by_result(a, full, ByMode::Greatest));
                r
            },
            CoreFunction::MinBy => {
                let results = if args.len() == 2 {
                    apply_to_elements(&args, 0, 1, true, intr)
                } else {
                    Vec::new()
                };
                let ghost a = views(args@);
                let ghost rs = result_views(results@);
                let ghost full = applied(intr, elems_of(a[0]), a[1]);
                proof {
                    if check_args(a, by_signature()) is None {
                        lemma_by_args_shape(args@);
                        assert(a[0] == args@[0]@ && a[1] == args@[1]@);
                        if full.len() > 0 {
                            lemma_by_agrees(rs, full, ByMode::Least, extreme_by_expected());
                        }
                    }
                }
                let r = min_by(args, results);
                assert(result_view(r) == extreme_by_result(a, full, ByMode::Least));
                r
            },
            CoreFunction::SortBy => {
                let results = if args.len() == 2 {
                    apply_to_elements(&args, 0, 1, true, intr)
                } else {
                    Vec::new()
                };
                let ghost a = views(args@);
                let ghost rs = result_views(results@);
                let ghost full = applied(intr, elems_of(a[0]), a[1]);
                proof {
                    if check_args(a, by_signature()) is None {
                        lemma_by_args_shape(args@);
                        assert(a[0] == args@[0]@ && a[1] == args@[1]@);
                        if full.len() > 0 {
                            lemma_by_agrees(rs, full, ByMode::Check, sort_by_expected());
                        }
                    }
                }
                let r = sort_by(args, results);
                assert(result_view(r) == sort_by_result(a, full));
                r
            },
        }
    }
}

/// The functions by name: a later entry for a name replaces an earlier one.
pub open spec fn entries_map(es: Seq<(String, CoreFunction)>) -> Map<Seq<char>, CoreFunction>
    decreases es.len(),
{
    if es.len() == 0 {
        Map::empty()
    } else {
        entries_map(es.drop_last()).insert(es.last().0@, es.last().1)
    }
}

/// Map of JMESPath function names to their implementation
pub struct Functions {
    entries: Vec<(String, CoreFunction)>,
}

impl View for Functions {
    type V = Map<Seq<char>, CoreFunction>;

    closed spec fn view(&self) -> Map<Seq<char>, CoreFunction> {
        entries_map(self.entries@)
    }
}

proof fn lemma_entries_map_get(es: Seq<(String, CoreFunction)>, k: Seq<char>, i: int)
    requires
        0 <= i < es.len(),
        es[i].0@ == k,
        forall|j: int| i < j < es.len() ==> (#[trigger] es[j]).0@ != k,
    ensures
        entries_map(es).contains_key(k),
        entries_map(es)[k] == es[i].1,
    decreases es.len(),
{
    if i < es.len() - 1 {
        lemma_entries_map_get(es.drop_last(), k, i);
    }
}

proof fn lemma_entries_map_absent(es: Seq<(String, CoreFunction)>, k: Seq<char>)
    requires
        forall|j: int| 0 <= j < es.len() ==> (#[trigger] es[j]).0@ != k,
    ensures
        !entries_map(es).contains_key(k),
    decreases es.len(),
{
    if es.len() > 0 {
        lemma_entries_map_absent(es.drop_last(), k);
    }
}

impl Functions {
    /// An empty map of functions.
    pub fn new() -> (r: Functions)
        ensures
            r@ == Map::<Seq<char>, CoreFunction>::empty(),
    {
        Functions { entries: Vec::new() }
    }

    /// Binds `name` to `f`, replacing what it was bound to.
    pub fn insert(&mut self, name: String, f: CoreFunction)
        ensures
            final(self)@ == old(self)@.insert(name@, f),
    {
        let ghost old_entries = self.entries@;
        self.entries.push((name, f));
        assert(self.entries@.drop_last() =~= old_entries);
    }

    /// The function bound to `name`, if any.
    pub fn get(&self, name: &String) -> (r: Option<CoreFunction>)
        ensures
            r is Some <==> self@.contains_key(name@),
            r matches Some(f) ==> self@[name@] == f,
    {
        let mut i: usize = self.entries.len();
        while i > 0
            invariant
                i <= self.entries.len(),
                forall|j: int| i <= j < self.entries.len() ==> (#[trigger] self.entries@[j]).0@ != name@,
            decreases i,
        {
            i = i - 1;
            if same_string(&self.entries[i].0, name) {
                proof {
                    lemma_entries_map_get(self.entries@, name@, i as int);
                }
                return Some(self.entries[i].1);
            }
        }
        proof {
            lemma_entries_map_absent(self.entries@, name@);
        }
        None
    }

    /// Whether `name` is bound to a function.
    pub fn contains_key(&self, name: &String) -> (r: bool)
        ensures
            r == self@.contains_key(name@),
    {
        self.get(name).is_some()
    }
}

/// The built-in functions, by their JMESPath names.
pub open spec fn core_functions() -> Map<Seq<char>, CoreFunction> {
    Map::empty().insert("abs"@, CoreFunction::Abs).insert("avg"@, CoreFunction::Avg).insert(
        "ceil"@,
        CoreFunction::Ceil,
    ).insert("contains"@, CoreFunction::Contains).insert("ends_with"@, CoreFunction::EndsWith).insert(
        "floor"@,
        CoreFunction::Floor,
    ).insert("join"@, CoreFunction::Join).insert("keys"@, CoreFunction::Keys).insert(
        "length"@,
        CoreFunction::Length,
    ).insert("map"@, CoreFunction::MapEach).insert("min"@, CoreFunction::Min).insert(
        "max"@,
        CoreFunction::Max,
    ).insert("max_by"@, CoreFunction::MaxBy).insert("min_by"@, CoreFunction::MinBy).insert(
        "merge"@,
        CoreFunction::Merge,
    ).insert("not_null"@, CoreFunction::NotNull).insert("reverse"@, CoreFunction::Reverse).insert(
        "sort"@,
        CoreFunction::Sort,
    ).insert("sort_by"@, CoreFunction::SortBy).insert("starts_with"@, CoreFunction::StartsWith).insert(
        "sum"@,
        CoreFunction::Sum,
    ).insert("to_array"@, CoreFunction::ToArray).insert("to_number"@, CoreFunction::ToNumber).insert(
        "to_string"@,
        CoreFunction::ToString,
    ).insert("type"@, CoreFunction::Type).insert("values"@, CoreFunction::Values)
}

/// Registers the default JMESPath functions into a map.
pub fn register_core_functions(functions: &mut Functions)
    ensures
        final(functions)@ == old(functions)@.union_prefer_right(core_functions()),
{
    let ghost m0 = functions@;
    functions.insert(String::from_str("abs"), CoreFunction::Abs);
    functions.insert(String::from_str("avg"), CoreFunction::Avg);
    functions.insert(String::from_str("ceil"), CoreFunction::Ceil);
    functions.insert(String::from_str("contains"), CoreFunction::Contains);
    functions.insert(String::from_str("ends_with"), CoreFunction::EndsWith);
    functions.insert(String::from_str("floor"), CoreFunction::Floor);
    functions.insert(String::from_str("join"), CoreFunction::Join);
    functions.insert(String::from_str("keys"), CoreFunction::Keys);
    functions.insert(String::from_str("length"), CoreFunction::Length);
    functions.insert(String::from_str("map"), CoreFunction::MapEach);
    functions.insert(String::from_str("min"), CoreFunction::Min);
    functions.insert(String::from_str("max"), CoreFunction::Max);
    functions.insert(String::from_str("max_by"), CoreFunction::MaxBy);
    functions.insert(String::from_str("min_by"), CoreFunction::MinBy);
    functions.insert(String::from_str("merge"), CoreFunction::Merge);
    functions.insert(String::from_str("not_null"), CoreFunction::NotNull);
    functions.insert(String::from_str("reverse"), CoreFunction::Reverse);
    functions.insert(String::from_str("sort"), CoreFunction::Sort);
    functions.insert(String::from_str("sort_by"), CoreFunction::SortBy);
    functions.insert(String::from_str("starts_with"), CoreFunction::StartsWith);
    functions.insert(String::from_str("sum"), CoreFunction::Sum);
    functions.insert(String::from_str("to_array"), CoreFunction::ToArray);
    functions.insert(String::from_str("to_number"), CoreFunction::ToNumber);
    functions.insert(String::from_str("to_string"), CoreFunction::ToString);
    functions.insert(String::from_str("type"), CoreFunction::Type);
    functions.insert(String::from_str("values"), CoreFunction::Values);
    assert(functions@ =~= m0.union_prefer_right(core_functions()));
}

} // verus!
