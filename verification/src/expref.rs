//! The functions that apply an expression reference to each element of an
//! array: `map`, `max_by`, `min_by` and `sort_by`.
//!
//! Applying an expression is the interpreter's work.  Each function here takes
//! `results`, what applying the expression to each element gave (element `i`
//! gave `results[i]`), and does the rest: it reports the first failure or
//! wrongly typed result, in the order in which the elements come.

use vstd::prelude::*;
use crate::argument::{ArgumentType, ArgSpec};
use crate::error::{RuntimeError, ErrorModel, SearchResult, result_view};
use crate::functions::elems_of;
use crate::text::Order;
use crate::validate::{check_args, validate_args, lemma_check_args_ok};
use crate::argument::{arg_views, lemma_arg_views};
use crate::variable::{
    Variable,
    Json,
    JsonType,
    type_of,
    type_label,
    type_label_string,
    json_order,
    views,
    lemma_views,
};

verus! {

/// The models of a sequence of results.
pub open spec fn result_views(rs: Seq<SearchResult>) -> Seq<Result<Json, ErrorModel>> {
    Seq::new(rs.len(), |i: int| result_view(rs[i]))
}

/// The value of a successful result (null for a failure).
pub open spec fn ok_value(r: Result<Json, ErrorModel>) -> Json {
    match r {
        Ok(v) => v,
        Err(_) => Json::Null,
    }
}

/// The error of the first failed result from position `k` on, if any.
pub open spec fn first_failure(rs: Seq<Result<Json, ErrorModel>>, k: int) -> Option<ErrorModel>
    decreases rs.len() - k,
{
    if k < 0 || k >= rs.len() {
        None
    } else {
        match rs[k] {
            Err(e) => Some(e),
            Ok(_) => first_failure(rs, k + 1),
        }
    }
}

/// The signature of `map`.
pub open spec fn map_signature() -> Seq<ArgSpec> {
    seq![ArgSpec::Expref, ArgSpec::Array]
}

/// The signature of `max_by`, `min_by` and `sort_by`.
pub open spec fn by_signature() -> Seq<ArgSpec> {
    seq![ArgSpec::Array, ArgSpec::Expref]
}

/// What `map` returns, given the results of applying the expression: the
/// first failure, else the array of results.
pub open spec fn map_result(args: Seq<Json>, rs: Seq<Result<Json, ErrorModel>>) -> Result<
    Json,
    ErrorModel,
> {
    match check_args(args, map_signature()) {
        Some(e) => Err(e),
        None => match first_failure(rs, 0) {
            Some(e) => Err(e),
            None => Ok(Json::Arr(Seq::new(rs.len(), |i: int| ok_value(rs[i])))),
        },
    }
}

/// Which element a `_by` function keeps.
#[derive(PartialEq, Eq, Structural, Clone, Copy, Debug)]
pub enum ByMode {
    /// The first element whose result is greatest (`max_by`).
    Greatest,
    /// The first element whose result is least (`min_by`).
    Least,
    /// None: only the results' types are checked (`sort_by`).
    Check,
}

/// The error for a result of the wrong type.
pub open spec fn return_type_error(expected: Seq<char>, m: Json, invocation: int) -> ErrorModel {
    ErrorModel::InvalidReturnType {
        expected,
        actual: type_label(type_of(m)),
        actual_value: m,
        position: 1,
        invocation: invocation as usize,
    }
}

/// Scans the results from position `k` on, with `cand` the position kept so
/// far and `entered` the type of the first result: the first failure, the first
/// result of another type, else the position kept at the end.
pub open spec fn by_scan(
    rs: Seq<Result<Json, ErrorModel>>,
    k: int,
    cand: int,
    entered: JsonType,
    mode: ByMode,
) -> Result<int, ErrorModel>
    decreases rs.len() - k,
{
    if k < 0 || k >= rs.len() {
        Ok(cand)
    } else {
        match rs[k] {
            Err(e) => Err(e),
            Ok(m) => if type_of(m) != entered {
                Err(return_type_error("expression->"@ + type_label(entered), m, k))
            } else {
                let o = json_order(m, ok_value(rs[cand]));
                let better = match mode {
                    ByMode::Greatest => o == Order::Greater,
                    ByMode::Least => o == Order::Less,
                    ByMode::Check => false,
                };
                by_scan(
                    rs,
                    k + 1,
                    if better {
                        k
                    } else {
                        cand
                    },
                    entered,
                    mode,
                )
            },
        }
    }
}

/// What a `_by` function finds among non-empty results: the first result
/// must succeed and be a string or a number (else the error, which names the
/// accepted types as `first_expected`), and so on as [`by_scan`] says.
pub open spec fn by_outcome(
    rs: Seq<Result<Json, ErrorModel>>,
    mode: ByMode,
    first_expected: Seq<char>,
) -> Result<int, ErrorModel> {
    match rs[0] {
        Err(e) => Err(e),
        Ok(m) => if type_of(m) != JsonType::String && type_of(m) != JsonType::Number {
            Err(return_type_error(first_expected, m, 1))
        } else {
            by_scan(rs, 1, 0, type_of(m), mode)
        },
    }
}

/// The accepted result types that `max_by` and `min_by` name.
pub open spec fn extreme_by_expected() -> Seq<char> {
    "expression->number|expression->string"@
}

/// The accepted result types that `sort_by` names.
pub open spec fn sort_by_expected() -> Seq<char> {
    "expression->string|expression->number"@
}

/// What `max_by` (`mode` greatest) or `min_by` (`mode` least) returns: null
/// for an empty array, else the element that [`by_outcome`] keeps.
pub open spec fn extreme_by_result(
    args: Seq<Json>,
    rs: Seq<Result<Json, ErrorModel>>,
    mode: ByMode,
) -> Result<Json, ErrorModel> {
    match check_args(args, by_signature()) {
        Some(e) => Err(e),
        None => {
            let vals = elems_of(args[0]);
            if vals.len() == 0 {
                Ok(Json::Null)
            } else {
                match by_outcome(rs, mode, extreme_by_expected()) {
                    Err(e) => Err(e),
                    Ok(k) => Ok(vals[k]),
                }
            }
        },
    }
}

/// Each element paired with its key, the value of its result.
pub open spec fn pair_up(vals: Seq<Json>, rs: Seq<Result<Json, ErrorModel>>) -> Seq<(Json, Json)> {
    Seq::new(vals.len(), |i: int| (vals[i], ok_value(rs[i])))
}

/// The position at which a pair with key `k` goes into pairs sorted by key so
/// that it follows every pair whose key is not greater: the first pair whose
/// key is greater than `k`.
pub open spec fn key_pos(s: Seq<(Json, Json)>, k: Json) -> int
    decreases s.len(),
{
    if s.len() == 0 {
        0
    } else if json_order(s[0].1, k) == Order::Greater {
        0
    } else {
        1 + key_pos(s.drop_first(), k)
    }
}

/// The pairs of `s` by increasing key, pairs with equal keys keeping their
/// relative order: each pair in turn put after the ones before it whose keys
/// are not greater.
pub open spec fn sort_by_key(s: Seq<(Json, Json)>) -> Seq<(Json, Json)>
    decreases s.len(),
{
    if s.len() == 0 {
        Seq::empty()
    } else {
        let t = sort_by_key(s.drop_last());
        t.insert(key_pos(t, s.last().1), s.last())
    }
}

/// The first components of pairs.
pub open spec fn firsts(s: Seq<(Json, Json)>) -> Seq<Json> {
    s.map_values(|p: (Json, Json)| p.0)
}

/// The second components (keys) of pairs.
pub open spec fn keys_of(s: Seq<(Json, Json)>) -> Seq<Json> {
    s.map_values(|p: (Json, Json)| p.1)
}

/// What `sort_by` returns: after the checks of [`by_outcome`], the elements
/// stably sorted by their keys, the values of their results.
pub open spec fn sort_by_result(args: Seq<Json>, rs: Seq<Result<Json, ErrorModel>>) -> Result<
    Json,
    ErrorModel,
> {
    match check_args(args, by_signature()) {
        Some(e) => Err(e),
        None => {
            let vals = elems_of(args[0]);
            if vals.len() == 0 {
                Ok(Json::Arr(vals))
            } else {
                match by_outcome(rs, ByMode::Check, sort_by_expected()) {
                    Err(e) => Err(e),
                    Ok(_) => Ok(Json::Arr(firsts(sort_by_key(pair_up(vals, rs))))),
                }
            }
        },
    }
}

/// Whether evaluation stops at result `r`, the `k`-th: at a failure and, where
/// the results' types are checked (`check`), at a first result that is neither
/// a string nor a number or a later one of another type (`first`) than the
/// first.
pub open spec fn stops(r: Result<Json, ErrorModel>, k: int, first: JsonType, check: bool) -> bool {
    match r {
        Err(_) => true,
        Ok(m) => check && if k == 0 {
            type_of(m) != JsonType::String && type_of(m) != JsonType::Number
        } else {
            type_of(m) != first
        },
    }
}

/// `rs` is `full`, or agrees with it up to and including a result at which
/// evaluation stops.
pub open spec fn agrees_until_stop(
    rs: Seq<Result<Json, ErrorModel>>,
    full: Seq<Result<Json, ErrorModel>>,
    check: bool,
) -> bool {
    rs.len() == full.len() && (rs == full || exists|s: int|
        0 <= s < full.len() && (forall|i: int| 0 <= i <= s ==> #[trigger] rs[i] == full[i]) && stops(
            full[s],
            s,
            type_of(ok_value(full[0])),
            check,
        ))
}

proof fn lemma_first_failure_agrees(
    rs: Seq<Result<Json, ErrorModel>>,
    full: Seq<Result<Json, ErrorModel>>,
    k: int,
    s: int,
)
    requires
        rs.len() == full.len(),
        0 <= k <= s < full.len(),
        forall|i: int| 0 <= i <= s ==> #[trigger] rs[i] == full[i],
        full[s] is Err,
    ensures
        first_failure(rs, k) == first_failure(full, k),
        first_failure(full, k) is Some,
    decreases s - k,
{
    assert(rs[k] == full[k]);
    if k < s && full[k] is Ok {
        lemma_first_failure_agrees(rs, full, k + 1, s);
    }
}

/// Results that agree with `full` until evaluation stops give `map` the
/// outcome that `full` gives.
pub proof fn lemma_map_agrees(
    args: Seq<Json>,
    rs: Seq<Result<Json, ErrorModel>>,
    full: Seq<Result<Json, ErrorModel>>,
)
    requires
        agrees_until_stop(rs, full, false),
    ensures
        map_result(args, rs) == map_result(args, full),
{
    if rs != full {
        let s = choose|s: int|
            0 <= s < full.len() && (forall|i: int| 0 <= i <= s ==> #[trigger] rs[i] == full[i])
                && stops(full[s], s, type_of(ok_value(full[0])), false);
        lemma_first_failure_agrees(rs, full, 0, s);
    }
}

proof fn lemma_by_scan_agrees(
    rs: Seq<Result<Json, ErrorModel>>,
    full: Seq<Result<Json, ErrorModel>>,
    k: int,
    cand: int,
    entered: JsonType,
    mode: ByMode,
    s: int,
)
    requires
        rs.len() == full.len(),
        0 <= cand < k <= s < full.len(),
        forall|i: int| 0 <= i <= s ==> #[trigger] rs[i] == full[i],
        stops(full[s], s, entered, true),
    ensures
        by_scan(rs, k, cand, entered, mode) == by_scan(full, k, cand, entered, mode),
        by_scan(full, k, cand, entered, mode) is Err,
    decreases s - k,
{
    assert(rs[k] == full[k]);
    assert(rs[cand] == full[cand]);
    if k < s {
        if let Ok(m) = full[k] {
            if type_of(m) == entered {
                let o = json_order(m, ok_value(full[cand]));
                let better = match mode {
                    ByMode::Greatest => o == Order::Greater,
                    ByMode::Least => o == Order::Less,
                    ByMode::Check => false,
                };
                lemma_by_scan_agrees(rs, full, k + 1, if better { k } else { cand }, entered, mode, s);
            }
        }
    }
}

/// Results that agree with `full` until evaluation stops give the `_by`
/// functions the outcome that `full` gives, and where they differ from `full`
/// that outcome is an error.
pub proof fn lemma_by_agrees(
    rs: Seq<Result<Json, ErrorModel>>,
    full: Seq<Result<Json, ErrorModel>>,
    mode: ByMode,
    first_expected: Seq<char>,
)
    requires
        agrees_until_stop(rs, full, true),
        full.len() > 0,
    ensures
        by_outcome(rs, mode, first_expected) == by_outcome(full, mode, first_expected),
        rs != full ==> by_outcome(full, mode, first_expected) is Err,
{
    if rs != full {
        let s = choose|s: int|
            0 <= s < full.len() && (forall|i: int| 0 <= i <= s ==> #[trigger] rs[i] == full[i])
                && stops(full[s], s, type_of(ok_value(full[0])), true);
        assert(rs[0] == full[0]);
        if let Ok(m) = full[0] {
            if type_of(m) == JsonType::String || type_of(m) == JsonType::Number {
                assert(s > 0);
                lemma_by_scan_agrees(rs, full, 1, 0, type_of(m), mode, s);
            }
        }
    }
}

/// How many results the expression gives for these arguments: one per element
/// of the array argument at `position`.
pub open spec fn results_expected(args: Seq<Json>, position: int, rs_len: nat) -> bool {
    rs_len == elems_of(args[position]).len()
}

fn map_types() -> (r: Vec<ArgumentType>)
    ensures
        arg_views(r@) == map_signature(),
{
    let r = vec![ArgumentType::Expref, ArgumentType::Array];
    proof {
        lemma_arg_views(r@);
        assert(arg_views(r@) =~= map_signature());
    }
    r
}

fn by_types() -> (r: Vec<ArgumentType>)
    ensures
        arg_views(r@) == by_signature(),
{
    let r = vec![ArgumentType::Array, ArgumentType::Expref];
    proof {
        lemma_arg_views(r@);
        assert(arg_views(r@) =~= by_signature());
    }
    r
}

/// A copy of an error.
pub fn copy_error(e: &RuntimeError) -> (c: RuntimeError)
    ensures
        c@ == e@,
{
    match e {
        RuntimeError::NotEnoughArguments { expected, actual } => RuntimeError::NotEnoughArguments {
            expected: *expected,
            actual: *actual,
        },
        RuntimeError::TooManyArguments { expected, actual } => RuntimeError::TooManyArguments {
            expected: *expected,
            actual: *actual,
        },
        RuntimeError::InvalidType { expected, actual, actual_value, position } =>
            RuntimeError::InvalidType {
            expected: expected.clone(),
            actual: actual.clone(),
            actual_value: actual_value.deep_clone(),
            position: *position,
        },
        RuntimeError::InvalidReturnType { expected, actual, actual_value, position, invocation } =>
            RuntimeError::InvalidReturnType {
            expected: expected.clone(),
            actual: actual.clone(),
            actual_value: actual_value.deep_clone(),
            position: *position,
            invocation: *invocation,
        },
        RuntimeError::UnknownFunction(name) => RuntimeError::UnknownFunction(name.clone()),
    }
}

/// `map(expression, array)`: the expression's result for each element, given
/// as `results`; the first failure among them is the result instead.
pub fn map_each(args: Vec<Variable>, results: Vec<SearchResult>) -> (r: SearchResult)
    ensures
        result_view(r) == map_result(views(args@), result_views(results@)),
{
    let types = map_types();
    proof {
        lemma_views(args@);
    }
    validate_args(&args, &types)?;
    let ghost rs = result_views(results@);
    let mut out: Vec<Variable> = Vec::new();
    let mut i: usize = 0;
    while i < results.len()
        invariant
            i <= results.len(),
            rs == result_views(results@),
            check_args(views(args@), map_signature()) is None,
            out.len() == i,
            forall|j: int| 0 <= j < i ==> (#[trigger] out@[j])@ == ok_value(rs[j]),
            first_failure(rs, 0) == first_failure(rs, i as int),
        decreases results.len() - i,
    {
        match &results[i] {
            Ok(v) => {
                out.push(v.deep_clone());
            },
            Err(e) => {
                return Err(copy_error(e));
            },
        }
        i = i + 1;
    }
    proof {
        lemma_views(out@);
        assert(views(out@) =~= Seq::new(rs.len(), |j: int| ok_value(rs[j])));
    }
    Ok(Variable::Array(out))
}

/// Scans results as [`by_outcome`] does and returns the position kept.
fn scan_results(results: &Vec<SearchResult>, mode: ByMode, first_expected: &str) -> (r: Result<
    usize,
    RuntimeError,
>)
    requires
        results.len() > 0,
    ensures
        match r {
            Ok(k) => by_outcome(result_views(results@), mode, first_expected@) == Ok::<
                int,
                ErrorModel,
            >(k as int) && k < results.len(),
            Err(e) => by_outcome(result_views(results@), mode, first_expected@) == Err::<
                int,
                ErrorModel,
            >(e@),
        },
{
    let ghost rs = result_views(results@);
    let initial = match &results[0] {
        Ok(v) => v,
        Err(e) => {
            return Err(copy_error(e));
        },
    };
    let entered = initial.get_type();
    if entered != JsonType::String && entered != JsonType::Number {
        return Err(
            RuntimeError::InvalidReturnType {
                expected: String::from_str(first_expected),
                actual: initial.type_string(),
                actual_value: initial.deep_clone(),
                position: 1,
                invocation: 1,
            },
        );
    }
    let mut cand: usize = 0;
    let mut k: usize = 1;
    while k < results.len()
        invariant
            1 <= k <= results.len(),
            cand < k,
            rs == result_views(results@),
            rs[cand as int] is Ok,
            type_of(rs[0]->Ok_0) == entered,
            by_outcome(rs, mode, first_expected@) == by_scan(rs, k as int, cand as int, entered, mode),
        decreases results.len() - k,
    {
        let mapped = match &results[k] {
            Ok(v) => v,
            Err(e) => {
                return Err(copy_error(e));
            },
        };
        if mapped.get_type() != entered {
            let mut expected = String::from_str("expression->");
            let name = type_label_string(entered);
            expected.append(name.as_str());
            return Err(
                RuntimeError::InvalidReturnType {
                    expected,
                    actual: mapped.type_string(),
                    actual_value: mapped.deep_clone(),
                    position: 1,
                    invocation: k,
                },
            );
        }
        let best = match &results[cand] {
            Ok(v) => v,
            Err(_) => mapped,
        };
        let o = mapped.compare(best);
        let better = match mode {
            ByMode::Greatest => o == Order::Greater,
            ByMode::Least => o == Order::Less,
            ByMode::Check => false,
        };
        if better {
            cand = k;
        }
        k = k + 1;
    }
    Ok(cand)
}

/// `max_by(array, expression)` (`greatest`) or `min_by(array, expression)`:
/// the first element whose result (from `results`) is greatest or least.
fn extreme_by(args: Vec<Variable>, results: Vec<SearchResult>, mode: ByMode) -> (r: SearchResult)
    requires
        mode != ByMode::Check,
        check_args(views(args@), by_signature()) is None ==> results_expected(
            views(args@),
            0,
            results.len() as nat,
        ),
    ensures
        result_view(r) == extreme_by_result(views(args@), result_views(results@), mode),
{
    let types = by_types();
    proof {
        lemma_views(args@);
    }
    validate_args(&args, &types)?;
    proof {
        lemma_check_args_ok(views(args@), by_signature());
    }
    match &args[0] {
        Variable::Array(vals) => {
            proof {
                lemma_views(vals@);
            }
            if vals.len() == 0 {
                return Ok(Variable::Null);
            }
            let k = scan_results(&results, mode, "expression->number|expression->string")?;
            Ok(vals[k].deep_clone())
        },
        _ => Ok(Variable::Null),
    }
}

/// `max_by(array, expression)`: the first element whose result (from
/// `results`) is greatest, or null for an empty array.
pub fn max_by(args: Vec<Variable>, results: Vec<SearchResult>) -> (r: SearchResult)
    requires
        check_args(views(args@), by_signature()) is None ==> results_expected(
            views(args@),
            0,
            results.len() as nat,
        ),
    ensures
        result_view(r) == extreme_by_result(views(args@), result_views(results@), ByMode::Greatest),
{
    extreme_by(args, results, ByMode::Greatest)
}

/// `min_by(array, expression)`: the first element whose result (from
/// `results`) is least, or null for an empty array.
pub fn min_by(args: Vec<Variable>, results: Vec<SearchResult>) -> (r: SearchResult)
    requires
        check_args(views(args@), by_signature()) is None ==> results_expected(
            views(args@),
            0,
            results.len() as nat,
        ),
    ensures
        result_view(r) == extreme_by_result(views(args@), result_views(results@), ByMode::Least),
{
    extreme_by(args, results, ByMode::Least)
}

/// The models of pairs of values.
pub open spec fn pair_views(v: Seq<(Variable, Variable)>) -> Seq<(Json, Json)> {
    Seq::new(v.len(), |i: int| (v[i].0@, v[i].1@))
}

proof fn lemma_key_pos_skip(s: Seq<(Json, Json)>, k: Json, i: int)
    requires
        0 <= i <= s.len(),
        forall|j: int| 0 <= j < i ==> json_order(#[trigger] s[j].1, k) != Order::Greater,
    ensures
        key_pos(s, k) == i + key_pos(s.skip(i), k),
    decreases i,
{
    if i > 0 {
        assert forall|j: int| 0 <= j < i - 1 implies json_order(#[trigger] s.drop_first()[j].1, k)
            != Order::Greater by {
            assert(s.drop_first()[j] == s[j + 1]);
        }
        lemma_key_pos_skip(s.drop_first(), k, i - 1);
        assert(s.drop_first().skip(i - 1) =~= s.skip(i));
    } else {
        assert(s.skip(0) =~= s);
    }
}

/// Puts the pair `x` into `out` after every pair whose key is not greater.
fn insert_by_key(out: &mut Vec<(Variable, Variable)>, x: (Variable, Variable))
    ensures
        pair_views(final(out)@) == pair_views(old(out)@).insert(
            key_pos(pair_views(old(out)@), x.1@),
            (x.0@, x.1@),
        ),
{
    let ghost s0 = pair_views(out@);
    let mut i: usize = 0;
    while i < out.len()
        invariant
            i <= out.len(),
            s0 == pair_views(out@),
            forall|j: int| 0 <= j < i ==> json_order(#[trigger] s0[j].1, x.1@) != Order::Greater,
        ensures
            i <= out.len(),
            i < out.len() ==> json_order(s0[i as int].1, x.1@) == Order::Greater,
        decreases out.len() - i,
    {
        if out[i].1.compare(&x.1) == Order::Greater {
            break;
        }
        i = i + 1;
    }
    proof {
        lemma_key_pos_skip(s0, x.1@, i as int);
        if i < out.len() {
            assert(s0.skip(i as int)[0] == s0[i as int]);
        } else {
            assert(s0.skip(i as int).len() == 0);
        }
        assert(key_pos(s0.skip(i as int), x.1@) == 0);
    }
    let ghost xv = (x.0@, x.1@);
    out.insert(i, x);
    assert(pair_views(out@) =~= s0.insert(i as int, xv));
}

/// The elements of `vals` stably sorted by the values of their results.
fn sort_elements_by_key(vals: &Vec<Variable>, results: &Vec<SearchResult>) -> (r: Vec<Variable>)
    requires
        results.len() == vals.len(),
    ensures
        views(r@) == firsts(sort_by_key(pair_up(views(vals@), result_views(results@)))),
{
    let ghost a = pair_up(views(vals@), result_views(results@));
    proof {
        lemma_views(vals@);
    }
    let mut out: Vec<(Variable, Variable)> = Vec::new();
    let mut i: usize = 0;
    assert(a.take(0) =~= Seq::<(Json, Json)>::empty());
    assert(pair_views(out@) =~= sort_by_key(a.take(0)));
    while i < vals.len()
        invariant
            i <= vals.len(),
            results.len() == vals.len(),
            a == pair_up(views(vals@), result_views(results@)),
            a.len() == vals.len(),
            forall|j: int| 0 <= j < vals.len() ==> #[trigger] views(vals@)[j] == vals@[j]@,
            pair_views(out@) == sort_by_key(a.take(i as int)),
        decreases vals.len() - i,
    {
        assert(a.take(i + 1).drop_last() =~= a.take(i as int));
        assert(a.take(i + 1).last() == a[i as int]);
        let key = match &results[i] {
            Ok(v) => v.deep_clone(),
            Err(_) => Variable::Null,
        };
        let elem = vals[i].deep_clone();
        insert_by_key(&mut out, (elem, key));
        i = i + 1;
    }
    assert(a.take(vals.len() as int) =~= a);
    let ghost sorted = pair_views(out@);
    let mut r: Vec<Variable> = Vec::new();
    let mut j: usize = 0;
    while j < out.len()
        invariant
            j <= out.len(),
            sorted == pair_views(out@),
            r.len() == j,
            forall|m: int| 0 <= m < j ==> (#[trigger] r@[m])@ == sorted[m].0,
        decreases out.len() - j,
    {
        r.push(out[j].0.deep_clone());
        j = j + 1;
    }
    proof {
        lemma_views(r@);
        assert(views(r@) =~= firsts(sorted));
    }
    r
}

/// `sort_by(array, expression)`: checks that the results (from `results`)
/// succeed and are all strings or all numbers, and returns the elements
/// stably sorted by the values of their results.
pub fn sort_by(args: Vec<Variable>, results: Vec<SearchResult>) -> (r: SearchResult)
    requires
        check_args(views(args@), by_signature()) is None ==> results_expected(
            views(args@),
            0,
            results.len() as nat,
        ),
    ensures
        result_view(r) == sort_by_result(views(args@), result_views(results@)),
{
    let types = by_types();
    proof {
        lemma_views(args@);
    }
    validate_args(&args, &types)?;
    proof {
        lemma_check_args_ok(views(args@), by_signature());
    }
    match &args[0] {
        Variable::Array(vals) => {
            proof {
                lemma_views(vals@);
            }
            if vals.len() == 0 {
                let out: Vec<Variable> = Vec::new();
                proof {
                    lemma_views(out@);
                    assert(views(out@) =~= views(vals@));
                }
                return Ok(Variable::Array(out));
            }
            let _ = scan_results(&results, ByMode::Check, "expression->string|expression->number")?;
            let out = sort_elements_by_key(vals, &results);
            Ok(Variable::Array(out))
        },
        _ => Ok(Variable::Null),
    }
}

/// Arguments that pass the check of `max_by`, `min_by` and `sort_by` are an
/// array and an expression reference.
pub proof fn lemma_by_args_shape(args: Seq<Variable>)
    requires
        check_args(views(args), by_signature()) is None,
    ensures
        args.len() == 2,
        args[0] is Array,
        args[1] is Expref,
        elems_of(views(args)[0]).len() == args[0]->Array_0.len(),
{
    lemma_views(args);
    lemma_check_args_ok(views(args), by_signature());
    assert(views(args)[0] == args[0]@);
    assert(views(args)[1] == args[1]@);
    if let Variable::Array(vals) = args[0] {
        lemma_views(vals@);
    }
}

/// Arguments that pass the check of `map` are an expression reference and an
/// array.
pub proof fn lemma_map_args_shape(args: Seq<Variable>)
    requires
        check_args(views(args), map_signature()) is None,
    ensures
        args.len() == 2,
        args[0] is Expref,
        args[1] is Array,
        elems_of(views(args)[1]).len() == args[1]->Array_0.len(),
{
    lemma_views(args);
    lemma_check_args_ok(views(args), map_signature());
    assert(views(args)[0] == args[0]@);
    assert(views(args)[1] == args[1]@);
    if let Variable::Array(vals) = args[1] {
        lemma_views(vals@);
    }
}

} // verus!
