//! Validation of a function's arguments against its signature: the arity
//! first, then each argument's type, the first mismatch reported.

use vstd::prelude::*;
use crate::argument::{ArgumentType, ArgSpec, accepts, arg_label, arg_views, lemma_arg_views};
use crate::error::{
    RuntimeError,
    ErrorModel,
    check_view,
    validate_arity,
    validate_min_arity,
};
use crate::variable::{Variable, Json, type_of, type_label, views, lemma_views};

verus! {

/// The type expected at position `k`: the positional type there, or the
/// variadic type past the positional ones.
pub open spec fn expected_type(
    types: Seq<ArgSpec>,
    variadic: ArgSpec,
    k: int,
) -> ArgSpec {
    if k < types.len() {
        types[k]
    } else {
        variadic
    }
}

/// The error reported for value `v` at position `k` where type `t` was expected.
pub open spec fn type_error(t: ArgSpec, v: Json, k: int) -> ErrorModel {
    ErrorModel::InvalidType {
        expected: arg_label(t),
        actual: type_label(type_of(v)),
        actual_value: v,
        position: k as usize,
    }
}

/// The error for the first argument from position `k` on that its expected
/// type does not accept, if there is one.
pub open spec fn first_type_error(
    args: Seq<Json>,
    types: Seq<ArgSpec>,
    variadic: ArgSpec,
    k: int,
) -> Option<ErrorModel>
    decreases args.len() - k,
{
    if k < 0 || k >= args.len() {
        None
    } else if !accepts(expected_type(types, variadic, k), args[k]) {
        Some(type_error(expected_type(types, variadic, k), args[k], k))
    } else {
        first_type_error(args, types, variadic, k + 1)
    }
}

/// What validating positional arguments reports: a wrong count of arguments,
/// else the first argument of a wrong type, else nothing.
pub open spec fn check_args(args: Seq<Json>, types: Seq<ArgSpec>) -> Option<ErrorModel> {
    if args.len() < types.len() {
        Some(
            ErrorModel::NotEnoughArguments {
                expected: types.len() as usize,
                actual: args.len() as usize,
            },
        )
    } else if args.len() > types.len() {
        Some(
            ErrorModel::TooManyArguments {
                expected: types.len() as usize,
                actual: args.len() as usize,
            },
        )
    } else {
        first_type_error(args, types, ArgSpec::Any, 0)
    }
}

/// What validating arguments with a variadic tail reports: too few arguments,
/// else the first argument of a wrong type, else nothing.
pub open spec fn check_variadic_args(
    args: Seq<Json>,
    types: Seq<ArgSpec>,
    variadic: ArgSpec,
) -> Option<ErrorModel> {
    if args.len() < types.len() {
        Some(
            ErrorModel::NotEnoughArguments {
                expected: types.len() as usize,
                actual: args.len() as usize,
            },
        )
    } else {
        first_type_error(args, types, variadic, 0)
    }
}

/// `first_type_error` finds nothing exactly when every argument from `k` on is accepted.
pub proof fn lemma_first_type_error_none(
    args: Seq<Json>,
    types: Seq<ArgSpec>,
    variadic: ArgSpec,
    k: int,
)
    requires
        0 <= k,
    ensures
        first_type_error(args, types, variadic, k) is None <==> forall|j: int|
            k <= j < args.len() ==> accepts(expected_type(types, variadic, j), #[trigger] args[j]),
    decreases args.len() - k,
{
    if k < args.len() {
        lemma_first_type_error_none(args, types, variadic, k + 1);
    }
}

/// Checks arguments from position 0 on against their expected types.
fn check_types(
    args: &Vec<Variable>,
    types: &Vec<ArgumentType>,
    variadic: &ArgumentType,
) -> (r: Result<(), RuntimeError>)
    ensures
        check_view(r) == first_type_error(views(args@), arg_views(types@), variadic@, 0),
{
    let ghost a = views(args@);
    proof {
        lemma_views(args@);
        lemma_arg_views(types@);
    }
    let mut k: usize = 0;
    while k < args.len()
        invariant
            k <= args.len(),
            a == views(args@),
            a.len() == args.len(),
            forall|j: int| 0 <= j < args.len() ==> #[trigger] a[j] == args@[j]@,
            arg_views(types@).len() == types.len(),
            forall|j: int| 0 <= j < types.len() ==> #[trigger] arg_views(types@)[j] == types@[j]@,
            first_type_error(a, arg_views(types@), variadic@, 0) == first_type_error(
                a,
                arg_views(types@),
                variadic@,
                k as int,
            ),
        decreases args.len() - k,
    {
        let t = if k < types.len() {
            &types[k]
        } else {
            variadic
        };
        assert(t@ == expected_type(arg_views(types@), variadic@, k as int));
        if !t.is_valid(&args[k]) {
            return Err(
                RuntimeError::InvalidType {
                    expected: t.to_string(),
                    actual: args[k].type_string(),
                    actual_value: args[k].deep_clone(),
                    position: k,
                },
            );
        }
        k = k + 1;
    }
    Ok(())
}

/// Validates positional arguments: the count, then each argument's type.
pub fn validate_args(args: &Vec<Variable>, types: &Vec<ArgumentType>) -> (r: Result<
    (),
    RuntimeError,
>)
    ensures
        check_view(r) == check_args(views(args@), arg_views(types@)),
{
    proof {
        lemma_views(args@);
        lemma_arg_views(types@);
    }
    validate_arity(types.len(), args.len())?;
    check_types(args, types, &ArgumentType::Any)
}

/// Validates arguments with a variadic tail: at least as many arguments as
/// positional types, then each argument's type (positional types first, the
/// variadic type for the rest).
pub fn validate_variadic_args(
    args: &Vec<Variable>,
    types: &Vec<ArgumentType>,
    variadic: &ArgumentType,
) -> (r: Result<(), RuntimeError>)
    ensures
        check_view(r) == check_variadic_args(views(args@), arg_views(types@), variadic@),
{
    proof {
        lemma_views(args@);
        lemma_arg_views(types@);
    }
    validate_min_arity(types.len(), args.len())?;
    check_types(args, types, variadic)
}

/// Positional arguments that pass validation match their types one for one.
pub proof fn lemma_check_args_ok(args: Seq<Json>, types: Seq<ArgSpec>)
    requires
        check_args(args, types) is None,
    ensures
        args.len() == types.len(),
        forall|j: int| 0 <= j < args.len() ==> accepts(#[trigger] types[j], args[j]),
{
    lemma_first_type_error_none(args, types, ArgSpec::Any, 0);
    assert forall|j: int| 0 <= j < args.len() implies accepts(#[trigger] types[j], args[j]) by {
        assert(accepts(expected_type(types, ArgSpec::Any, j), args[j]));
    }
}

/// Arguments with a variadic tail that pass validation are at least as many as
/// the positional types, and each is accepted by its expected type.
pub proof fn lemma_check_variadic_args_ok(args: Seq<Json>, types: Seq<ArgSpec>, variadic: ArgSpec)
    requires
        check_variadic_args(args, types, variadic) is None,
    ensures
        args.len() >= types.len(),
        forall|j: int|
            0 <= j < args.len() ==> accepts(expected_type(types, variadic, j), #[trigger] args[j]),
{
    lemma_first_type_error_none(args, types, variadic, 0);
}

} // verus!
