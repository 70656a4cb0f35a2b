//! The functions that order values: `max`, `min` and `sort`.

use vstd::prelude::*;
use crate::argument::{ArgumentType, ArgSpec, arg_views, lemma_arg_views};
use crate::error::{ErrorModel, SearchResult, result_view};
use crate::functions::{guarded, elems_of};
use crate::text::Order;
use crate::validate::{check_args, validate_args, lemma_check_args_ok};
use crate::variable::{Variable, Json, json_order, views, lemma_views};

verus! {

/// The signature of `max`, `min` and `sort`: an array of strings or numbers,
/// all of one type.
pub open spec fn sortable_signature() -> Seq<ArgSpec> {
    seq![ArgSpec::HomogeneousArray(seq![ArgSpec::String, ArgSpec::Number])]
}

/// Folds `rest` into `acc`, keeping the greater of the two at each step and
/// the later one of two equal values.
pub open spec fn fold_max(acc: Json, rest: Seq<Json>) -> Json
    decreases rest.len(),
{
    if rest.len() == 0 {
        acc
    } else {
        fold_max(
            if json_order(acc, rest[0]) == Order::Greater {
                acc
            } else {
                rest[0]
            },
            rest.drop_first(),
        )
    }
}

/// Folds `rest` into `acc`, keeping the lesser of the two at each step and
/// the earlier one of two equal values.
pub open spec fn fold_min(acc: Json, rest: Seq<Json>) -> Json
    decreases rest.len(),
{
    if rest.len() == 0 {
        acc
    } else {
        fold_min(
            if json_order(acc, rest[0]) == Order::Greater {
                rest[0]
            } else {
                acc
            },
            rest.drop_first(),
        )
    }
}

/// The greatest element of an array (the last of equal greatest ones), or null
/// for an empty array.
pub open spec fn max_value(a: Seq<Json>) -> Json {
    if a.len() == 0 {
        Json::Null
    } else {
        fold_max(a[0], a.drop_first())
    }
}

/// The least element of an array (the first of equal least ones), or null for
/// an empty array.
pub open spec fn min_value(a: Seq<Json>) -> Json {
    if a.len() == 0 {
        Json::Null
    } else {
        fold_min(a[0], a.drop_first())
    }
}

/// What `max` returns.
pub open spec fn max_result(args: Seq<Json>) -> Result<Json, ErrorModel> {
    guarded(check_args(args, sortable_signature()), max_value(elems_of(args[0])))
}

/// What `min` returns.
pub open spec fn min_result(args: Seq<Json>) -> Result<Json, ErrorModel> {
    guarded(check_args(args, sortable_signature()), min_value(elems_of(args[0])))
}

/// The position at which `x` goes into a sorted sequence so that it follows
/// every element not greater than it: the first element greater than `x`.
pub open spec fn upper_pos(s: Seq<Json>, x: Json) -> int
    decreases s.len(),
{
    if s.len() == 0 {
        0
    } else if json_order(s[0], x) == Order::Greater {
        0
    } else {
        1 + upper_pos(s.drop_first(), x)
    }
}

/// `x` put into `s` after every element not greater than it.
pub open spec fn insert_sorted(s: Seq<Json>, x: Json) -> Seq<Json> {
    s.insert(upper_pos(s, x), x)
}

/// The elements of `s` in order, equal elements keeping their relative order:
/// each element in turn put after the ones before it that are not greater.
pub open spec fn sort_seq(s: Seq<Json>) -> Seq<Json>
    decreases s.len(),
{
    if s.len() == 0 {
        Seq::empty()
    } else {
        insert_sorted(sort_seq(s.drop_last()), s.last())
    }
}

/// What `sort` returns.
pub open spec fn sort_result(args: Seq<Json>) -> Result<Json, ErrorModel> {
    guarded(check_args(args, sortable_signature()), Json::Arr(sort_seq(elems_of(args[0]))))
}

fn sortable_types() -> (r: Vec<ArgumentType>)
    ensures
        arg_views(r@) == sortable_signature(),
{
    let inner = vec![ArgumentType::String, ArgumentType::Number];
    proof {
        lemma_arg_views(inner@);
        assert(arg_views(inner@) =~= seq![ArgSpec::String, ArgSpec::Number]);
    }
    let r = vec![ArgumentType::HomogeneousArray(inner)];
    proof {
        lemma_arg_views(r@);
        assert(arg_views(r@) =~= sortable_signature());
    }
    r
}

/// The greatest (`greatest`) or least element of a non-empty vector, as `max`
/// and `min` choose it.
fn extreme(vals: &Vec<Variable>, greatest: bool) -> (r: Variable)
    requires
        vals.len() > 0,
    ensures
        greatest ==> r@ == max_value(views(vals@)),
        !greatest ==> r@ == min_value(views(vals@)),
{
    let ghost a = views(vals@);
    proof {
        lemma_views(vals@);
        assert(a.drop_first() =~= a.skip(1));
    }
    let mut cand: usize = 0;
    let mut i: usize = 1;
    while i < vals.len()
        invariant
            1 <= i <= vals.len(),
            cand < vals.len(),
            a == views(vals@),
            a.len() == vals.len(),
            forall|j: int| 0 <= j < vals.len() ==> #[trigger] a[j] == vals@[j]@,
            greatest ==> fold_max(a[0], a.drop_first()) == fold_max(a[cand as int], a.skip(i as int)),
            !greatest ==> fold_min(a[0], a.drop_first()) == fold_min(a[cand as int], a.skip(i as int)),
        decreases vals.len() - i,
    {
        assert(a.skip(i as int)[0] == a[i as int]);
        assert(a.skip(i as int).drop_first() =~= a.skip(i + 1));
        let o = vals[cand].compare(&vals[i]);
        if greatest {
            if o != Order::Greater {
                cand = i;
            }
        } else {
            if o == Order::Greater {
                cand = i;
            }
        }
        i = i + 1;
    }
    assert(a.skip(i as int).len() == 0);
    vals[cand].deep_clone()
}

/// `max(array[number]|array[string])`: the greatest element, or null for an
/// empty array.
pub fn max(args: Vec<Variable>) -> (r: SearchResult)
    ensures
        result_view(r) == max_result(views(args@)),
{
    let types = sortable_types();
    proof {
        lemma_views(args@);
    }
    validate_args(&args, &types)?;
    proof {
        lemma_check_args_ok(views(args@), sortable_signature());
    }
    match &args[0] {
        Variable::Array(vals) => {
            proof {
                lemma_views(vals@);
            }
            if vals.len() == 0 {
                Ok(Variable::Null)
            } else {
                Ok(extreme(vals, true))
            }
        },
        _ => Ok(Variable::Null),
    }
}

/// `min(array[number]|array[string])`: the least element, or null for an
/// empty array.
pub fn min(args: Vec<Variable>) -> (r: SearchResult)
    ensures
        result_view(r) == min_result(views(args@)),
{
    let types = sortable_types();
    proof {
        lemma_views(args@);
    }
    validate_args(&args, &types)?;
    proof {
        lemma_check_args_ok(views(args@), sortable_signature());
    }
    match &args[0] {
        Variable::Array(vals) => {
            proof {
                lemma_views(vals@);
            }
            if vals.len() == 0 {
                Ok(Variable::Null)
            } else {
                Ok(extreme(vals, false))
            }
        },
        _ => Ok(Variable::Null),
    }
}

proof fn lemma_upper_pos_skip(s: Seq<Json>, x: Json, i: int)
    requires
        0 <= i <= s.len(),
        forall|j: int| 0 <= j < i ==> json_order(#[trigger] s[j], x) != Order::Greater,
    ensures
        upper_pos(s, x) == i + upper_pos(s.skip(i), x),
    decreases i,
{
    if i > 0 {
        assert forall|j: int| 0 <= j < i - 1 implies json_order(#[trigger] s.drop_first()[j], x)
            != Order::Greater by {
            assert(s.drop_first()[j] == s[j + 1]);
        }
        lemma_upper_pos_skip(s.drop_first(), x, i - 1);
        assert(s.drop_first().skip(i - 1) =~= s.skip(i));
    } else {
        assert(s.skip(0) =~= s);
    }
}

/// Puts `x` into `out` after every element not greater than it.
fn insert_in_order(out: &mut Vec<Variable>, x: Variable)
    ensures
        views(final(out)@) == insert_sorted(views(old(out)@), x@),
{
    let ghost s0 = views(out@);
    proof {
        lemma_views(out@);
    }
    let mut i: usize = 0;
    while i < out.len()
        invariant
            i <= out.len(),
            s0 == views(out@),
            s0.len() == out.len(),
            forall|j: int| 0 <= j < out.len() ==> #[trigger] s0[j] == out@[j]@,
            forall|j: int| 0 <= j < i ==> json_order(#[trigger] s0[j], x@) != Order::Greater,
        ensures
            i <= out.len(),
            i < out.len() ==> json_order(s0[i as int], x@) == Order::Greater,
        decreases out.len() - i,
    {
        if out[i].compare(&x) == Order::Greater {
            break;
        }
        i = i + 1;
    }
    proof {
        lemma_upper_pos_skip(s0, x@, i as int);
        if i < out.len() {
            assert(s0.skip(i as int)[0] == s0[i as int]);
        } else {
            assert(s0.skip(i as int).len() == 0);
        }
        assert(upper_pos(s0.skip(i as int), x@) == 0);
    }
    let ghost xv = x@;
    out.insert(i, x);
    proof {
        lemma_views(out@);
        assert(views(out@) =~= s0.insert(i as int, xv));
    }
}

/// The elements of a vector in the order of `sort_seq`.
fn sort_values(vals: &Vec<Variable>) -> (r: Vec<Variable>)
    ensures
        views(r@) == sort_seq(views(vals@)),
{
    let ghost a = views(vals@);
    proof {
        lemma_views(vals@);
    }
    let mut out: Vec<Variable> = Vec::new();
    let mut i: usize = 0;
    proof {
        lemma_views(out@);
        assert(a.take(0) =~= Seq::<Json>::empty());
        assert(views(out@) =~= sort_seq(a.take(0)));
    }
    while i < vals.len()
        invariant
            i <= vals.len(),
            a == views(vals@),
            a.len() == vals.len(),
            forall|j: int| 0 <= j < vals.len() ==> #[trigger] a[j] == vals@[j]@,
            views(out@) == sort_seq(a.take(i as int)),
        decreases vals.len() - i,
    {
        assert(a.take(i + 1).drop_last() =~= a.take(i as int));
        assert(a.take(i + 1).last() == a[i as int]);
        let x = vals[i].deep_clone();
        insert_in_order(&mut out, x);
        i = i + 1;
    }
    assert(a.take(vals.len() as int) =~= a);
    out
}

/// `sort(array[number]|array[string])`: the elements in increasing order;
/// equal elements keep their relative order.
pub fn sort(args: Vec<Variable>) -> (r: SearchResult)
    ensures
        result_view(r) == sort_result(views(args@)),
{
    let types = sortable_types();
    proof {
        lemma_views(args@);
    }
    validate_args(&args, &types)?;
    proof {
        lemma_check_args_ok(views(args@), sortable_signature());
    }
    match &args[0] {
        Variable::Array(vals) => {
            proof {
                lemma_views(vals@);
            }
            let out = sort_values(vals);
            proof {
                lemma_views(out@);
            }
            Ok(Variable::Array(out))
        },
        _ => {
            let out: Vec<Variable> = Vec::new();
            proof {
                lemma_views(out@);
                assert(views(out@) =~= sort_seq(Seq::empty()));
            }
            Ok(Variable::Array(out))
        },
    }
}

} // verus!
