//! Properties that hold across the library's functions, proved over the
//! models that the functions' contracts use.

use vstd::prelude::*;
use vstd::arithmetic::power2::{pow2, lemma_pow2_adds, lemma_pow2_pos, lemma_pow2_unfold, lemma2_to64};
use vstd::arithmetic::mul::{lemma_mul_is_associative, lemma_mul_strict_inequality};
use crate::number::{scaled, num_order};
use crate::text::{Order, text_order};
use crate::variable::{Ast, Json, JsonType, json_order, type_of, is_number, num_mantissa, num_exponent};
use crate::ordering::{
    upper_pos,
    insert_sorted,
    sort_seq,
    fold_max,
    fold_min,
    max_value,
    min_value,
};
use vstd::seq_lib::{to_multiset_insert, to_multiset_build};
use crate::argument::{ArgSpec, accepts, any_accepts, lemma_any_accepts};
use crate::validate::{
    check_args,
    check_variadic_args,
    lemma_first_type_error_none,
    expected_type,
    lemma_check_args_ok,
    lemma_check_variadic_args_ok,
};
use crate::error::{arity_error, min_arity_error, ErrorModel};
use crate::functions::{
    reverse_value,
    to_array_value,
    contains_value,
    first_non_null,
    length_value,
    abs_value,
    elems_of,
    members_of,
    str_of,
};
use crate::number::Float;
use crate::objects::{insert_pos, insert_member, insert_all, merge_members, merge_result};
use crate::text::{is_prefix, is_suffix, occurs_in, seq_join};
use crate::variable::{entry_keys, entry_values, keys_increasing, valid};
use crate::registry::{
    CoreFunction,
    FloatFunction,
    Interpreter,
    core_functions,
    direct_result,
    core_result,
    applied,
};
use crate::ordering::sortable_signature;
use crate::functions::{
    reverse_signature,
    to_number_result,
    to_string_result,
    keys_result,
    values_result,
    reverse_result,
    contains_result,
    contains_signature,
    join_result,
    join_signature,
    starts_with_result,
    ends_with_result,
    two_strings_signature,
};
use crate::expref::{
    ByMode,
    by_scan,
    by_outcome,
    extreme_by_result,
    sort_by_result,
    sort_by_expected,
    by_signature,
    key_pos,
    sort_by_key,
    keys_of,
    firsts,
    pair_up,
    ok_value,
    map_result,
    results_expected,
};

verus! {

/// `a < b` by characters exactly when `b > a`.
pub proof fn law_text_order_flip(a: Seq<char>, b: Seq<char>)
    ensures
        text_order(b, a) == text_order(a, b).flip(),
    decreases a.len(),
{
    if a.len() > 0 && b.len() > 0 && a[0] == b[0] {
        law_text_order_flip(a.drop_first(), b.drop_first());
    }
}

/// Two character sequences are in the order `Equal` exactly when they are the same.
pub proof fn law_text_order_equal(a: Seq<char>, b: Seq<char>)
    ensures
        (text_order(a, b) == Order::Equal) == (a == b),
    decreases a.len(),
{
    if a.len() > 0 && b.len() > 0 && a[0] == b[0] {
        law_text_order_equal(a.drop_first(), b.drop_first());
        if a.drop_first() == b.drop_first() {
            assert forall|i: int| 0 <= i < a.len() implies a[i] == b[i] by {
                if i > 0 {
                    assert(a[i] == a.drop_first()[i - 1]);
                    assert(b[i] == b.drop_first()[i - 1]);
                }
            }
            assert(a =~= b);
        }
        if a == b {
            assert(a.drop_first() =~= b.drop_first());
        }
    } else if a.len() > 0 && b.len() > 0 {
        assert(a[0] != b[0]);
        if a == b {
            assert(false);
        }
    } else if a.len() == 0 && b.len() == 0 {
        assert(a =~= b);
    } else {
        assert(a.len() != b.len());
    }
}

/// The order of character sequences is transitive.
pub proof fn law_text_order_transitive(a: Seq<char>, b: Seq<char>, c: Seq<char>)
    ensures
        text_order(a, b) != Order::Greater && text_order(b, c) != Order::Greater ==> text_order(
            a,
            c,
        ) != Order::Greater,
        text_order(a, b) == Order::Less && text_order(b, c) != Order::Greater ==> text_order(a, c)
            == Order::Less,
        text_order(a, b) != Order::Greater && text_order(b, c) == Order::Less ==> text_order(a, c)
            == Order::Less,
    decreases a.len(),
{
    if a.len() > 0 && b.len() > 0 && c.len() > 0 {
        law_text_order_transitive(a.drop_first(), b.drop_first(), c.drop_first());
    }
}

/// Comparing in a finer unit than [`num_order`] uses gives the same order.
proof fn lemma_num_order_at(m1: int, e1: int, m2: int, e2: int, base: int)
    requires
        base <= e1,
        base <= e2,
    ensures
        num_order(m1, e1, m2, e2) == (if scaled(m1, e1, base) < scaled(m2, e2, base) {
            Order::Less
        } else if scaled(m1, e1, base) == scaled(m2, e2, base) {
            Order::Equal
        } else {
            Order::Greater
        }),
{
    let b0 = if e1 <= e2 {
        e1
    } else {
        e2
    };
    let d = (b0 - base) as nat;
    let p = pow2(d) as int;
    lemma_pow2_pos(d);
    lemma_pow2_adds((e1 - b0) as nat, d);
    lemma_pow2_adds((e2 - b0) as nat, d);
    assert(((e1 - b0) as nat + d) as nat == (e1 - base) as nat);
    assert(((e2 - b0) as nat + d) as nat == (e2 - base) as nat);
    lemma_mul_is_associative(m1, pow2((e1 - b0) as nat) as int, p);
    lemma_mul_is_associative(m2, pow2((e2 - b0) as nat) as int, p);
    let x = scaled(m1, e1, b0);
    let y = scaled(m2, e2, b0);
    assert(scaled(m1, e1, base) == x * p);
    assert(scaled(m2, e2, base) == y * p);
    if x < y {
        lemma_mul_strict_inequality(x, y, p);
    } else if x > y {
        lemma_mul_strict_inequality(y, x, p);
    }
}

/// The order of numbers is read the other way round when the numbers are swapped.
pub proof fn law_num_order_flip(m1: int, e1: int, m2: int, e2: int)
    ensures
        num_order(m2, e2, m1, e1) == num_order(m1, e1, m2, e2).flip(),
{
    let base = if e1 <= e2 {
        e1
    } else {
        e2
    };
    lemma_num_order_at(m1, e1, m2, e2, base);
    lemma_num_order_at(m2, e2, m1, e1, base);
}

/// The order of numbers is transitive.
pub proof fn law_num_order_transitive(m1: int, e1: int, m2: int, e2: int, m3: int, e3: int)
    ensures
        num_order(m1, e1, m2, e2) != Order::Greater && num_order(m2, e2, m3, e3) != Order::Greater
            ==> num_order(m1, e1, m3, e3) != Order::Greater,
        num_order(m1, e1, m2, e2) == Order::Less && num_order(m2, e2, m3, e3) != Order::Greater
            ==> num_order(m1, e1, m3, e3) == Order::Less,
        num_order(m1, e1, m2, e2) != Order::Greater && num_order(m2, e2, m3, e3) == Order::Less
            ==> num_order(m1, e1, m3, e3) == Order::Less,
{
    let b = if e1 <= e2 && e1 <= e3 {
        e1
    } else if e2 <= e3 {
        e2
    } else {
        e3
    };
    lemma_num_order_at(m1, e1, m2, e2, b);
    lemma_num_order_at(m2, e2, m3, e3, b);
    lemma_num_order_at(m1, e1, m3, e3, b);
}

/// All elements are strings, or all are numbers: the arrays that `sort`,
/// `max` and `min` accept.
pub open spec fn uniform(s: Seq<Json>) -> bool {
    (forall|i: int| 0 <= i < s.len() ==> #[trigger] s[i] is Str) || (forall|i: int|
        0 <= i < s.len() ==> is_number(#[trigger] s[i]))
}

/// Whether a sequence is in non-decreasing order.
pub open spec fn sorted(s: Seq<Json>) -> bool {
    forall|i: int, j: int| 0 <= i < j < s.len() ==> json_order(#[trigger] s[i], #[trigger] s[j]) != Order::Greater
}

/// Three values that are all strings or all numbers.
pub open spec fn same_kind(a: Json, b: Json, c: Json) -> bool {
    (a is Str && b is Str && c is Str) || (is_number(a) && is_number(b) && is_number(c))
}

/// On strings, and on numbers, [`json_order`] is a total preorder.
pub proof fn law_json_order_preorder(a: Json, b: Json, c: Json)
    requires
        same_kind(a, b, c),
    ensures
        json_order(a, a) == Order::Equal,
        json_order(b, a) == json_order(a, b).flip(),
        json_order(a, b) != Order::Greater && json_order(b, c) != Order::Greater ==> json_order(a, c)
            != Order::Greater,
        json_order(a, b) == Order::Less && json_order(b, c) != Order::Greater ==> json_order(a, c)
            == Order::Less,
        json_order(a, b) != Order::Greater && json_order(b, c) == Order::Less ==> json_order(a, c)
            == Order::Less,
{
    if a is Str {
        let (x, y, z) = (a->Str_0, b->Str_0, c->Str_0);
        law_text_order_equal(x, x);
        law_text_order_flip(x, y);
        law_text_order_transitive(x, y, z);
    } else {
        law_num_order_flip(num_mantissa(a), num_exponent(a), num_mantissa(b), num_exponent(b));
        law_num_order_transitive(
            num_mantissa(a),
            num_exponent(a),
            num_mantissa(b),
            num_exponent(b),
            num_mantissa(c),
            num_exponent(c),
        );
        law_num_order_flip(num_mantissa(a), num_exponent(a), num_mantissa(a), num_exponent(a));
    }
}

proof fn lemma_upper_pos(s: Seq<Json>, x: Json)
    ensures
        0 <= upper_pos(s, x) <= s.len(),
        forall|j: int| 0 <= j < upper_pos(s, x) ==> json_order(#[trigger] s[j], x) != Order::Greater,
        upper_pos(s, x) < s.len() ==> json_order(s[upper_pos(s, x)], x) == Order::Greater,
    decreases s.len(),
{
    if s.len() > 0 && json_order(s[0], x) != Order::Greater {
        lemma_upper_pos(s.drop_first(), x);
        assert forall|j: int| 0 <= j < upper_pos(s, x) implies json_order(#[trigger] s[j], x)
            != Order::Greater by {
            if j > 0 {
                assert(s[j] == s.drop_first()[j - 1]);
            }
        }
    }
}

proof fn lemma_upper_pos_end(s: Seq<Json>, x: Json)
    requires
        forall|j: int| 0 <= j < s.len() ==> json_order(#[trigger] s[j], x) != Order::Greater,
    ensures
        upper_pos(s, x) == s.len(),
    decreases s.len(),
{
    if s.len() > 0 {
        assert forall|j: int| 0 <= j < s.len() - 1 implies json_order(
            #[trigger] s.drop_first()[j],
            x,
        ) != Order::Greater by {
            assert(s.drop_first()[j] == s[j + 1]);
        }
        lemma_upper_pos_end(s.drop_first(), x);
    }
}

/// Sorting keeps every element and adds none: the result is a permutation.
pub proof fn law_sort_permutation(s: Seq<Json>)
    ensures
        sort_seq(s).to_multiset() == s.to_multiset(),
    decreases s.len(),
{
    if s.len() > 0 {
        let t = sort_seq(s.drop_last());
        law_sort_permutation(s.drop_last());
        lemma_upper_pos(t, s.last());
        to_multiset_insert(t, upper_pos(t, s.last()), s.last());
        to_multiset_build(s.drop_last(), s.last());
        assert(s.drop_last().push(s.last()) =~= s);
    } else {
        assert(sort_seq(s) =~= s);
    }
}

proof fn lemma_sort_keeps_kind(s: Seq<Json>)
    ensures
        sort_seq(s).len() == s.len(),
        (forall|i: int| 0 <= i < s.len() ==> #[trigger] s[i] is Str) ==> (forall|i: int|
            0 <= i < s.len() ==> #[trigger] sort_seq(s)[i] is Str),
        (forall|i: int| 0 <= i < s.len() ==> is_number(#[trigger] s[i])) ==> (forall|i: int|
            0 <= i < s.len() ==> is_number(#[trigger] sort_seq(s)[i])),
    decreases s.len(),
{
    if s.len() > 0 {
        let d = s.drop_last();
        lemma_sort_keeps_kind(d);
        let t = sort_seq(d);
        lemma_upper_pos(t, s.last());
        let p = upper_pos(t, s.last());
        assert forall|i: int| 0 <= i < d.len() implies #[trigger] d[i] == s[i] by {}
        let r = sort_seq(s);
        assert(r == t.insert(p, s.last()));
        assert forall|i: int| 0 <= i < r.len() implies r[i] == (if i < p {
            t[i]
        } else if i == p {
            s.last()
        } else {
            t[i - 1]
        }) by {}
    }
}

proof fn lemma_uniform_same_kind(u: Seq<Json>, i: int, j: int, k: int)
    requires
        uniform(u),
        0 <= i < u.len(),
        0 <= j < u.len(),
        0 <= k < u.len(),
    ensures
        same_kind(u[i], u[j], u[k]),
{
}

proof fn lemma_below_next(x: Json, tp: Json, tj: Json)
    requires
        same_kind(x, tp, tj),
        json_order(tp, x) == Order::Greater,
        json_order(tp, tj) != Order::Greater,
    ensures
        json_order(x, tj) != Order::Greater,
{
    law_json_order_preorder(x, tp, tj);
    law_json_order_preorder(tp, x, tj);
}

#[verifier::spinoff_prover]
proof fn lemma_insert_pair(t: Seq<Json>, x: Json, i: int, j: int)
    requires
        sorted(t),
        uniform(t.push(x)),
        0 <= i < j <= t.len(),
    ensures
        json_order(insert_sorted(t, x)[i], insert_sorted(t, x)[j]) != Order::Greater,
{
    lemma_upper_pos(t, x);
    let p = upper_pos(t, x);
    let r = t.insert(p, x);
    let u = t.push(x);
    let n = t.len() as int;
    assert(u[n] == x);
    if j < p {
        assert(r[i] == t[i] && r[j] == t[j]);
    } else if j == p {
        assert(r[i] == t[i] && r[j] == x);
    } else if i < p {
        assert(r[i] == t[i] && r[j] == t[j - 1]);
    } else if i == p {
        assert(r[i] == x && r[j] == t[j - 1]);
        assert(u[p] == t[p] && u[j - 1] == t[j - 1]);
        lemma_uniform_same_kind(u, n, p, j - 1);
        if j - 1 == p {
            lemma_uniform_same_kind(u, p, p, p);
            law_json_order_preorder(t[p], t[p], t[p]);
        } else {
            assert(json_order(t[p], t[j - 1]) != Order::Greater);
        }
        lemma_below_next(x, t[p], t[j - 1]);
    } else {
        assert(r[i] == t[i - 1] && r[j] == t[j - 1]);
    }
}

proof fn lemma_insert_sorted_sorted(t: Seq<Json>, x: Json)
    requires
        sorted(t),
        uniform(t.push(x)),
    ensures
        sorted(insert_sorted(t, x)),
{
    lemma_upper_pos(t, x);
    assert forall|i: int, j: int| 0 <= i < j < insert_sorted(t, x).len() implies json_order(
        #[trigger] insert_sorted(t, x)[i],
        #[trigger] insert_sorted(t, x)[j],
    ) != Order::Greater by {
        lemma_insert_pair(t, x, i, j);
    }
}

/// Sorting an array of strings, or of numbers, gives a non-decreasing array.
pub proof fn law_sort_sorted(s: Seq<Json>)
    requires
        uniform(s),
    ensures
        sorted(sort_seq(s)),
    decreases s.len(),
{
    if s.len() > 0 {
        let d = s.drop_last();
        let x = s.last();
        assert forall|i: int| 0 <= i < d.len() implies #[trigger] d[i] == s[i] by {}
        law_sort_sorted(d);
        lemma_sort_keeps_kind(d);
        let t = sort_seq(d);
        assert(uniform(t.push(x))) by {
            assert forall|i: int| 0 <= i < t.len() implies #[trigger] t.push(x)[i] == t[i] by {}
            assert(t.push(x)[t.len() as int] == x);
        }
        lemma_insert_sorted_sorted(t, x);
    }
}

/// Sorting a non-decreasing sequence changes nothing.
#[verifier::spinoff_prover]
proof fn lemma_sort_of_sorted(t: Seq<Json>)
    requires
        sorted(t),
    ensures
        sort_seq(t) == t,
    decreases t.len(),
{
    if t.len() > 0 {
        let d = t.drop_last();
        assert(sorted(d)) by {
            assert forall|i: int, j: int| 0 <= i < j < d.len() implies json_order(
                #[trigger] d[i],
                #[trigger] d[j],
            ) != Order::Greater by {
                assert(d[i] == t[i] && d[j] == t[j]);
            }
        }
        lemma_sort_of_sorted(d);
        assert forall|j: int| 0 <= j < d.len() implies json_order(#[trigger] d[j], t.last())
            != Order::Greater by {
            assert(d[j] == t[j]);
        }
        lemma_upper_pos_end(d, t.last());
        assert(d.insert(d.len() as int, t.last()) =~= t);
    }
}

/// Sorting twice gives what sorting once gives.
pub proof fn law_sort_idempotent(s: Seq<Json>)
    requires
        uniform(s),
    ensures
        sort_seq(sort_seq(s)) == sort_seq(s),
{
    law_sort_sorted(s);
    lemma_sort_of_sorted(sort_seq(s));
}

proof fn lemma_fold_max(acc: Json, rest: Seq<Json>)
    requires
        uniform(rest.push(acc)),
    ensures
        fold_max(acc, rest) == acc || exists|i: int| 0 <= i < rest.len() && fold_max(acc, rest) == rest[i],
        json_order(acc, fold_max(acc, rest)) != Order::Greater,
        forall|j: int| 0 <= j < rest.len() ==> json_order(#[trigger] rest[j], fold_max(acc, rest)) != Order::Greater,
    decreases rest.len(),
{
    let u = rest.push(acc);
    let n = rest.len() as int;
    assert(u[n] == acc);
    if rest.len() == 0 {
        lemma_uniform_same_kind(u, n, n, n);
        law_json_order_preorder(acc, acc, acc);
    } else {
        let next = if json_order(acc, rest[0]) == Order::Greater {
            acc
        } else {
            rest[0]
        };
        let d = rest.drop_first();
        assert(uniform(d.push(next))) by {
            assert forall|i: int| 0 <= i < d.len() implies #[trigger] d.push(next)[i] == u[i + 1] by {}
            assert(d.push(next)[d.len() as int] == next);
            assert(u[0] == rest[0]);
        }
        lemma_fold_max(next, d);
        let r = fold_max(acc, rest);
        assert(r == fold_max(next, d));
        assert(u[0] == rest[0]);
        // `r` is `next`, `acc`, or an element of `rest`.
        if r != next {
            let i = choose|i: int| 0 <= i < d.len() && r == d[i];
            assert(r == rest[i + 1]);
        }
        // `acc` and `rest[0]` are not above `next`, and `next` is not above `r`.
        lemma_uniform_same_kind(u, n, 0, n);
        law_json_order_preorder(acc, rest[0], acc);
        law_json_order_preorder(rest[0], rest[0], rest[0]);
        if r == next {
            law_json_order_preorder(acc, next, next);
            law_json_order_preorder(rest[0], next, next);
        } else {
            let i = choose|i: int| 0 <= i < d.len() && r == d[i];
            lemma_uniform_same_kind(u, n, 0, i + 1);
            law_json_order_preorder(acc, next, r);
            law_json_order_preorder(rest[0], next, r);
        }
        assert forall|j: int| 0 <= j < rest.len() implies json_order(#[trigger] rest[j], r)
            != Order::Greater by {
            if j > 0 {
                assert(rest[j] == d[j - 1]);
            }
        }
    }
}

/// The greatest element of an array of strings, or of numbers, is one of its
/// elements and no element is greater.
pub proof fn law_max_is_greatest(a: Seq<Json>)
    requires
        uniform(a),
        a.len() > 0,
    ensures
        exists|i: int| 0 <= i < a.len() && max_value(a) == a[i],
        forall|j: int| 0 <= j < a.len() ==> json_order(#[trigger] a[j], max_value(a)) != Order::Greater,
{
    let d = a.drop_first();
    assert(uniform(d.push(a[0]))) by {
        assert forall|i: int| 0 <= i < d.len() implies #[trigger] d.push(a[0])[i] == a[i + 1] by {}
        assert(d.push(a[0])[d.len() as int] == a[0]);
    }
    lemma_fold_max(a[0], d);
    if max_value(a) != a[0] {
        let i = choose|i: int| 0 <= i < d.len() && max_value(a) == d[i];
        assert(max_value(a) == a[i + 1]);
    }
    assert forall|j: int| 0 <= j < a.len() implies json_order(#[trigger] a[j], max_value(a))
        != Order::Greater by {
        if j > 0 {
            assert(a[j] == d[j - 1]);
        }
    }
}

proof fn lemma_fold_min(acc: Json, rest: Seq<Json>)
    requires
        uniform(rest.push(acc)),
    ensures
        fold_min(acc, rest) == acc || exists|i: int| 0 <= i < rest.len() && fold_min(acc, rest) == rest[i],
        json_order(fold_min(acc, rest), acc) != Order::Greater,
        forall|j: int| 0 <= j < rest.len() ==> json_order(fold_min(acc, rest), #[trigger] rest[j]) != Order::Greater,
    decreases rest.len(),
{
    let u = rest.push(acc);
    let n = rest.len() as int;
    assert(u[n] == acc);
    if rest.len() == 0 {
        lemma_uniform_same_kind(u, n, n, n);
        law_json_order_preorder(acc, acc, acc);
    } else {
        let next = if json_order(acc, rest[0]) == Order::Greater {
            rest[0]
        } else {
            acc
        };
        let d = rest.drop_first();
        assert(uniform(d.push(next))) by {
            assert forall|i: int| 0 <= i < d.len() implies #[trigger] d.push(next)[i] == u[i + 1] by {}
            assert(d.push(next)[d.len() as int] == next);
            assert(u[0] == rest[0]);
        }
        lemma_fold_min(next, d);
        let r = fold_min(acc, rest);
        assert(r == fold_min(next, d));
        assert(u[0] == rest[0]);
        if r != next {
            let i = choose|i: int| 0 <= i < d.len() && r == d[i];
            assert(r == rest[i + 1]);
        }
        lemma_uniform_same_kind(u, n, 0, n);
        law_json_order_preorder(acc, rest[0], acc);
        law_json_order_preorder(rest[0], rest[0], rest[0]);
        if r == next {
            law_json_order_preorder(next, next, acc);
            law_json_order_preorder(next, next, rest[0]);
        } else {
            let i = choose|i: int| 0 <= i < d.len() && r == d[i];
            lemma_uniform_same_kind(u, i + 1, 0, n);
            law_json_order_preorder(r, next, acc);
            law_json_order_preorder(r, next, rest[0]);
        }
        assert forall|j: int| 0 <= j < rest.len() implies json_order(r, #[trigger] rest[j])
            != Order::Greater by {
            if j > 0 {
                assert(rest[j] == d[j - 1]);
            }
        }
    }
}

/// The least element of an array of strings, or of numbers, is one of its
/// elements and no element is less.
pub proof fn law_min_is_least(a: Seq<Json>)
    requires
        uniform(a),
        a.len() > 0,
    ensures
        exists|i: int| 0 <= i < a.len() && min_value(a) == a[i],
        forall|j: int| 0 <= j < a.len() ==> json_order(min_value(a), #[trigger] a[j]) != Order::Greater,
{
    let d = a.drop_first();
    assert(uniform(d.push(a[0]))) by {
        assert forall|i: int| 0 <= i < d.len() implies #[trigger] d.push(a[0])[i] == a[i + 1] by {}
        assert(d.push(a[0])[d.len() as int] == a[0]);
    }
    lemma_fold_min(a[0], d);
    if min_value(a) != a[0] {
        let i = choose|i: int| 0 <= i < d.len() && min_value(a) == d[i];
        assert(min_value(a) == a[i + 1]);
    }
    assert forall|j: int| 0 <= j < a.len() implies json_order(min_value(a), #[trigger] a[j])
        != Order::Greater by {
        if j > 0 {
            assert(a[j] == d[j - 1]);
        }
    }
}

/// A count of arguments that `validate_arity` accepts, `validate_min_arity`
/// accepts too; and where there are too few arguments both report the same
/// error.
pub proof fn law_arity_implies_min_arity(expected: usize, actual: usize)
    ensures
        arity_error(expected, actual) is None ==> min_arity_error(expected, actual) is None,
        actual < expected ==> arity_error(expected, actual) == min_arity_error(expected, actual),
        min_arity_error(expected, actual) is None <==> actual >= expected,
{
}

/// The type `any` accepts every value.
pub proof fn law_any_accepts_all(v: Json)
    ensures
        accepts(ArgSpec::Any, v),
{
}

/// A choice of types accepts a value exactly when one of the types does.
pub proof fn law_one_of(ts: Seq<ArgSpec>, v: Json)
    ensures
        accepts(ArgSpec::OneOf(ts), v) <==> exists|i: int| 0 <= i < ts.len() && #[trigger] accepts(ts[i], v),
{
    lemma_any_accepts(ts, v);
}

/// Adding types to a choice keeps every value it accepted.
proof fn lemma_any_accepts_extend(ts: Seq<ArgSpec>, us: Seq<ArgSpec>, v: Json)
    requires
        any_accepts(ts, v),
    ensures
        any_accepts(ts + us, v),
{
    lemma_any_accepts(ts, v);
    lemma_any_accepts(ts + us, v);
    let i = choose|i: int| 0 <= i < ts.len() && #[trigger] accepts(ts[i], v);
    assert((ts + us)[i] == ts[i]);
}

/// Accepting only grows: extending the types of a choice or of a homogeneous
/// array keeps every value they accepted, a homogeneous array type accepts
/// only arrays, and `any` accepts whatever any type accepts.
pub proof fn law_accepts_grows(ts: Seq<ArgSpec>, us: Seq<ArgSpec>, t: ArgSpec, v: Json)
    ensures
        accepts(ArgSpec::OneOf(ts), v) ==> accepts(ArgSpec::OneOf(ts + us), v),
        accepts(ArgSpec::HomogeneousArray(ts), v) ==> accepts(ArgSpec::HomogeneousArray(ts + us), v)
            && accepts(ArgSpec::Array, v),
        accepts(t, v) ==> accepts(ArgSpec::Any, v),
{
    if accepts(ArgSpec::OneOf(ts), v) {
        lemma_any_accepts_extend(ts, us, v);
    }
    if accepts(ArgSpec::HomogeneousArray(ts), v) {
        if let Json::Arr(vals) = v {
            assert forall|j: int| 0 <= j < vals.len() implies any_accepts(ts + us, #[trigger] vals[j]) by {
                if vals.len() > 0 {
                    lemma_any_accepts_extend(ts, us, vals[j]);
                }
            }
        }
    }
}

/// A homogeneous array type accepts every empty array.
pub proof fn law_homogeneous_accepts_empty(ts: Seq<ArgSpec>)
    ensures
        accepts(ArgSpec::HomogeneousArray(ts), Json::Arr(Seq::empty())),
{
}

/// What `sort`, `max` and `min` accept is an array of strings or of numbers.
pub proof fn law_sortable_is_uniform(v: Json)
    requires
        accepts(ArgSpec::HomogeneousArray(seq![ArgSpec::String, ArgSpec::Number]), v),
    ensures
        v is Arr,
        uniform(elems_of(v)),
{
    let ts = seq![ArgSpec::String, ArgSpec::Number];
    let a = elems_of(v);
    if a.len() > 0 {
        assert(any_accepts(ts, a[0]));
        lemma_any_accepts(ts, a[0]);
        let k = choose|k: int| 0 <= k < ts.len() && #[trigger] accepts(ts[k], a[0]);
        assert forall|i: int| 0 <= i < a.len() implies type_of(#[trigger] a[i]) == type_of(a[0]) by {}
        if k == 0 {
            assert forall|i: int| 0 <= i < a.len() implies #[trigger] a[i] is Str by {
                assert(type_of(a[i]) == JsonType::String);
            }
        } else {
            assert forall|i: int| 0 <= i < a.len() implies is_number(#[trigger] a[i]) by {
                assert(type_of(a[i]) == type_of(a[0]));
            }
        }
    }
}

/// Reversing an array or a string twice gives it back.
pub proof fn law_reverse_involution(v: Json)
    requires
        v is Arr || v is Str,
    ensures
        reverse_value(reverse_value(v)) == v,
        length_value(reverse_value(v)) == length_value(v),
{
    match v {
        Json::Arr(a) => {
            assert(a.reverse().reverse() =~= a);
        },
        Json::Str(s) => {
            assert(s.reverse().reverse() =~= s);
        },
        _ => {},
    }
}

/// Making an array of a value twice is making it once.
pub proof fn law_to_array_idempotent(v: Json)
    ensures
        to_array_value(to_array_value(v)) == to_array_value(v),
        to_array_value(v) is Arr,
{
}

/// An object has as many keys and values as it has members, in the same order.
pub proof fn law_keys_values(es: Seq<(Seq<char>, Json)>)
    ensures
        entry_keys(es).len() == es.len(),
        entry_values(es).len() == es.len(),
        forall|i: int|
            0 <= i < es.len() ==> #[trigger] entry_keys(es)[i] == Json::Str(es[i].0) && entry_values(
                es,
            )[i] == es[i].1,
        length_value(Json::Obj(es)) == Json::U64(es.len() as u64),
{
}


proof fn lemma_insert_pos_end(es: Seq<(Seq<char>, Json)>, k: Seq<char>)
    requires
        forall|j: int| 0 <= j < es.len() ==> text_order(#[trigger] es[j].0, k) == Order::Less,
    ensures
        insert_pos(es, k) == es.len(),
    decreases es.len(),
{
    if es.len() > 0 {
        assert forall|j: int| 0 <= j < es.len() - 1 implies text_order(
            #[trigger] es.drop_first()[j].0,
            k,
        ) == Order::Less by {
            assert(es.drop_first()[j] == es[j + 1]);
        }
        lemma_insert_pos_end(es.drop_first(), k);
    }
}

proof fn lemma_insert_all_increasing(es: Seq<(Seq<char>, Json)>, i: int)
    requires
        keys_increasing(es),
        0 <= i <= es.len(),
    ensures
        insert_all(es.take(i), es.skip(i)) == es,
    decreases es.len() - i,
{
    if i < es.len() {
        let acc = es.take(i);
        assert forall|j: int| 0 <= j < acc.len() implies text_order(#[trigger] acc[j].0, es[i].0)
            == Order::Less by {
            assert(acc[j] == es[j]);
        }
        lemma_insert_pos_end(acc, es[i].0);
        assert(insert_member(acc, es[i].0, es[i].1) =~= es.take(i + 1));
        assert(es.skip(i)[0] == es[i]);
        assert(es.skip(i).drop_first() =~= es.skip(i + 1));
        lemma_insert_all_increasing(es, i + 1);
    } else {
        assert(es.take(i) =~= es);
        assert(es.skip(i).len() == 0);
    }
}

/// Merging one object whose keys are in increasing order gives that object.
pub proof fn law_merge_single(es: Seq<(Seq<char>, Json)>)
    requires
        keys_increasing(es),
    ensures
        merge_members(seq![Json::Obj(es)]) == es,
{
    let objs = seq![Json::Obj(es)];
    assert(objs.drop_last() =~= Seq::<Json>::empty());
    assert(merge_members(objs.drop_last()) == Seq::<(Seq<char>, Json)>::empty());
    assert(es.take(0) =~= Seq::<(Seq<char>, Json)>::empty());
    assert(es.skip(0) =~= es);
    lemma_insert_all_increasing(es, 0);
}

/// Members as a map from key to value: a later member replaces an earlier one
/// with the same key.
pub open spec fn members_map(es: Seq<(Seq<char>, Json)>) -> Map<Seq<char>, Json>
    decreases es.len(),
{
    if es.len() == 0 {
        Map::empty()
    } else {
        Map::empty().insert(es[0].0, es[0].1).union_prefer_right(members_map(es.drop_first()))
    }
}

/// The members of objects as one map: a later object's value for a key
/// replaces an earlier one's.
pub open spec fn objects_map(objs: Seq<Json>) -> Map<Seq<char>, Json>
    decreases objs.len(),
{
    if objs.len() == 0 {
        Map::empty()
    } else {
        objects_map(objs.drop_last()).union_prefer_right(members_map(members_of(objs.last())))
    }
}

/// For an object whose keys increase strictly, `keys` gives its keys in
/// increasing order and `values` the values in the same order: each key maps
/// to the value at its position, and the object holds no other key.
pub proof fn law_keys_values_rebuild(es: Seq<(Seq<char>, Json)>, k: Seq<char>)
    requires
        keys_increasing(es),
    ensures
        forall|i: int, j: int|
            0 <= i < j < es.len() ==> text_order(
                str_of(#[trigger] entry_keys(es)[i]),
                str_of(#[trigger] entry_keys(es)[j]),
            ) == Order::Less,
        forall|i: int|
            0 <= i < es.len() ==> #[trigger] members_map(es).dom().contains(str_of(entry_keys(es)[i]))
                && members_map(es)[str_of(entry_keys(es)[i])] == entry_values(es)[i],
        members_map(es).dom().contains(k) <==> exists|i: int|
            0 <= i < es.len() && str_of(#[trigger] entry_keys(es)[i]) == k,
{
    assert forall|i: int| 0 <= i < es.len() implies #[trigger] members_map(es).dom().contains(
        str_of(entry_keys(es)[i]),
    ) && members_map(es)[str_of(entry_keys(es)[i])] == entry_values(es)[i] by {
        lemma_members_map_at(es, i);
    }
    lemma_members_map_dom(es, k);
    if exists|i: int| 0 <= i < es.len() && str_of(#[trigger] entry_keys(es)[i]) == k {
        let i = choose|i: int| 0 <= i < es.len() && str_of(#[trigger] entry_keys(es)[i]) == k;
        assert(es[i].0 == k);
    }
    if members_map(es).dom().contains(k) {
        let i = choose|i: int| 0 <= i < es.len() && (#[trigger] es[i]).0 == k;
        assert(str_of(entry_keys(es)[i]) == k);
    }
}

proof fn lemma_members_map_dom(es: Seq<(Seq<char>, Json)>, k: Seq<char>)
    ensures
        members_map(es).dom().contains(k) <==> exists|i: int| 0 <= i < es.len() && (#[trigger] es[i]).0 == k,
    decreases es.len(),
{
    if es.len() > 0 {
        let rest = es.drop_first();
        lemma_members_map_dom(rest, k);
        if exists|i: int| 0 <= i < rest.len() && (#[trigger] rest[i]).0 == k {
            let i = choose|i: int| 0 <= i < rest.len() && (#[trigger] rest[i]).0 == k;
            assert(es[i + 1] == rest[i]);
        }
        if exists|i: int| 0 <= i < es.len() && (#[trigger] es[i]).0 == k {
            let i = choose|i: int| 0 <= i < es.len() && (#[trigger] es[i]).0 == k;
            if i > 0 {
                assert(rest[i - 1] == es[i]);
            }
        }
    }
}

proof fn lemma_keys_increasing_distinct(es: Seq<(Seq<char>, Json)>, i: int, j: int)
    requires
        keys_increasing(es),
        0 <= i < es.len(),
        0 <= j < es.len(),
        i != j,
    ensures
        es[i].0 != es[j].0,
{
    if i < j {
        law_text_order_equal(es[i].0, es[j].0);
    } else {
        law_text_order_equal(es[j].0, es[i].0);
    }
}

proof fn lemma_members_map_at(es: Seq<(Seq<char>, Json)>, i: int)
    requires
        keys_increasing(es),
        0 <= i < es.len(),
    ensures
        members_map(es).dom().contains(es[i].0),
        members_map(es)[es[i].0] == es[i].1,
    decreases es.len(),
{
    let rest = es.drop_first();
    assert(keys_increasing(rest)) by {
        assert forall|a: int, b: int| 0 <= a < b < rest.len() implies text_order(
            #[trigger] rest[a].0,
            #[trigger] rest[b].0,
        ) == Order::Less by {
            assert(rest[a] == es[a + 1] && rest[b] == es[b + 1]);
        }
    }
    lemma_members_map_dom(es, es[i].0);
    if i == 0 {
        assert forall|j: int| 0 <= j < rest.len() implies (#[trigger] rest[j]).0 != es[0].0 by {
            assert(rest[j] == es[j + 1]);
            lemma_keys_increasing_distinct(es, 0, j + 1);
        }
        lemma_members_map_dom(rest, es[0].0);
    } else {
        assert(rest[i - 1] == es[i]);
        lemma_members_map_at(rest, i - 1);
    }
}

proof fn lemma_insert_pos(es: Seq<(Seq<char>, Json)>, k: Seq<char>)
    ensures
        0 <= insert_pos(es, k) <= es.len(),
        forall|j: int| 0 <= j < insert_pos(es, k) ==> text_order(#[trigger] es[j].0, k) == Order::Less,
        insert_pos(es, k) < es.len() ==> text_order(es[insert_pos(es, k)].0, k) != Order::Less,
    decreases es.len(),
{
    if es.len() > 0 && text_order(es[0].0, k) == Order::Less {
        let rest = es.drop_first();
        lemma_insert_pos(rest, k);
        assert forall|j: int| 0 <= j < insert_pos(es, k) implies text_order(#[trigger] es[j].0, k)
            == Order::Less by {
            if j > 0 {
                assert(es[j] == rest[j - 1]);
            }
        }
        if insert_pos(es, k) < es.len() {
            assert(es[insert_pos(es, k)] == rest[insert_pos(rest, k)]);
        }
    }
}

/// Keys that increase strictly stay so, and the map gains `(k, v)`, when the
/// member `(k, v)` is put in by [`insert_member`].
proof fn lemma_insert_member(es: Seq<(Seq<char>, Json)>, k: Seq<char>, v: Json)
    requires
        keys_increasing(es),
    ensures
        keys_increasing(insert_member(es, k, v)),
        members_map(insert_member(es, k, v)) == members_map(es).insert(k, v),
{
    lemma_insert_pos(es, k);
    let p = insert_pos(es, k);
    let r = insert_member(es, k, v);
    if p < es.len() && es[p].0 == k {
        assert forall|a: int, b: int| 0 <= a < b < r.len() implies text_order(
            #[trigger] r[a].0,
            #[trigger] r[b].0,
        ) == Order::Less by {
            assert(r[a].0 == es[a].0 && r[b].0 == es[b].0);
        }
        assert forall|q: Seq<char>| #[trigger] members_map(r).dom().contains(q) <==> members_map(
            es,
        ).insert(k, v).dom().contains(q) by {
            lemma_members_map_dom(r, q);
            lemma_members_map_dom(es, q);
            if exists|i: int| 0 <= i < r.len() && (#[trigger] r[i]).0 == q {
                let i = choose|i: int| 0 <= i < r.len() && (#[trigger] r[i]).0 == q;
                assert(es[i].0 == q);
            }
            if exists|i: int| 0 <= i < es.len() && (#[trigger] es[i]).0 == q {
                let i = choose|i: int| 0 <= i < es.len() && (#[trigger] es[i]).0 == q;
                assert(r[i].0 == q);
            }
        }
        assert forall|q: Seq<char>| #[trigger] members_map(r).dom().contains(q) implies members_map(
            r,
        )[q] == members_map(es).insert(k, v)[q] by {
            lemma_members_map_dom(r, q);
            let i = choose|i: int| 0 <= i < r.len() && (#[trigger] r[i]).0 == q;
            lemma_members_map_at(r, i);
            if i != p {
                assert(es[i] == r[i]);
                lemma_members_map_at(es, i);
            }
        }
        assert(members_map(r) =~= members_map(es).insert(k, v));
    } else {
        // `k` comes after the keys before `p` and before the keys from `p` on
        assert forall|j: int| p <= j < es.len() implies text_order(k, #[trigger] es[j].0)
            == Order::Less by {
            law_text_order_flip(es[p].0, k);
            law_text_order_equal(es[p].0, k);
            if j > p {
                law_text_order_transitive(k, es[p].0, es[j].0);
            }
        }
        assert forall|a: int, b: int| 0 <= a < b < r.len() implies text_order(
            #[trigger] r[a].0,
            #[trigger] r[b].0,
        ) == Order::Less by {
            if b < p {
                assert(r[a] == es[a] && r[b] == es[b]);
            } else if b == p {
                assert(r[a] == es[a] && r[b].0 == k);
            } else if a < p {
                assert(r[a] == es[a] && r[b] == es[b - 1]);
                law_text_order_transitive(es[a].0, k, es[b - 1].0);
            } else if a == p {
                assert(r[a].0 == k && r[b] == es[b - 1]);
            } else {
                assert(r[a] == es[a - 1] && r[b] == es[b - 1]);
            }
        }
        assert forall|j: int| 0 <= j < es.len() implies (#[trigger] es[j]).0 != k by {
            if j < p {
                law_text_order_equal(es[j].0, k);
            } else {
                law_text_order_equal(k, es[j].0);
            }
        }
        assert forall|q: Seq<char>| #[trigger] members_map(r).dom().contains(q) <==> members_map(
            es,
        ).insert(k, v).dom().contains(q) by {
            lemma_members_map_dom(r, q);
            lemma_members_map_dom(es, q);
            if exists|i: int| 0 <= i < r.len() && (#[trigger] r[i]).0 == q {
                let i = choose|i: int| 0 <= i < r.len() && (#[trigger] r[i]).0 == q;
                if i < p {
                    assert(es[i] == r[i]);
                } else if i > p {
                    assert(es[i - 1] == r[i]);
                }
            }
            if exists|i: int| 0 <= i < es.len() && (#[trigger] es[i]).0 == q {
                let i = choose|i: int| 0 <= i < es.len() && (#[trigger] es[i]).0 == q;
                if i < p {
                    assert(r[i] == es[i]);
                } else {
                    assert(r[i + 1] == es[i]);
                }
            }
            if q == k {
                assert(r[p].0 == k);
            }
        }
        assert forall|q: Seq<char>| #[trigger] members_map(r).dom().contains(q) implies members_map(
            r,
        )[q] == members_map(es).insert(k, v)[q] by {
            lemma_members_map_dom(r, q);
            let i = choose|i: int| 0 <= i < r.len() && (#[trigger] r[i]).0 == q;
            lemma_members_map_at(r, i);
            if i < p {
                assert(es[i] == r[i]);
                lemma_members_map_at(es, i);
            } else if i > p {
                assert(es[i - 1] == r[i]);
                lemma_members_map_at(es, i - 1);
            }
        }
        assert(members_map(r) =~= members_map(es).insert(k, v));
    }
}

proof fn lemma_insert_all(acc: Seq<(Seq<char>, Json)>, ms: Seq<(Seq<char>, Json)>)
    requires
        keys_increasing(acc),
    ensures
        keys_increasing(insert_all(acc, ms)),
        members_map(insert_all(acc, ms)) == members_map(acc).union_prefer_right(members_map(ms)),
    decreases ms.len(),
{
    if ms.len() == 0 {
        assert(members_map(acc).union_prefer_right(members_map(ms)) =~= members_map(acc));
    } else {
        let next = insert_member(acc, ms[0].0, ms[0].1);
        lemma_insert_member(acc, ms[0].0, ms[0].1);
        lemma_insert_all(next, ms.drop_first());
        assert(members_map(acc).insert(ms[0].0, ms[0].1).union_prefer_right(
            members_map(ms.drop_first()),
        ) =~= members_map(acc).union_prefer_right(members_map(ms)));
    }
}

/// What `merge` returns is an object whose keys increase strictly, and each
/// key holds the value of the last argument that has that key.
pub proof fn law_merge_last_wins(args: Seq<Json>)
    ensures
        keys_increasing(merge_members(args)),
        members_map(merge_members(args)) == objects_map(args),
        merge_result(args) matches Ok(v) ==> v == Json::Obj(merge_members(args)),
    decreases args.len(),
{
    if args.len() > 0 {
        law_merge_last_wins(args.drop_last());
        lemma_insert_all(merge_members(args.drop_last()), members_of(args.last()));
    } else {
        assert(members_map(merge_members(args)) =~= objects_map(args));
    }
}

/// `not_null` gives null exactly when every argument is null, and otherwise
/// one of the arguments.
pub proof fn law_not_null(args: Seq<Json>)
    ensures
        (first_non_null(args) is Null) <==> (forall|i: int| 0 <= i < args.len() ==> #[trigger] args[i] is Null),
        !(first_non_null(args) is Null) ==> exists|i: int| 0 <= i < args.len() && first_non_null(args) == args[i],
    decreases args.len(),
{
    if args.len() > 0 {
        law_not_null(args.drop_first());
        assert forall|i: int| 1 <= i < args.len() implies #[trigger] args[i] == args.drop_first()[i - 1] by {}
        if !(first_non_null(args) is Null) && args[0] is Null {
            let i = choose|i: int| 0 <= i < args.drop_first().len() && first_non_null(args.drop_first()) == args.drop_first()[i];
            assert(first_non_null(args) == args[i + 1]);
        }
        if args[0] is Null && (forall|i: int| 0 <= i < args.drop_first().len() ==> #[trigger] args.drop_first()[i] is Null) {
            assert forall|i: int| 0 <= i < args.len() implies #[trigger] args[i] is Null by {
                if i > 0 {
                    assert(args[i] == args.drop_first()[i - 1]);
                }
            }
        }
    }
}

/// An array contains each of its elements, and a string contains itself.
pub proof fn law_contains_own(a: Seq<Json>, i: int, s: Seq<char>)
    requires
        0 <= i < a.len(),
    ensures
        contains_value(Json::Arr(a), a[i]) == Json::Bool(true),
        contains_value(Json::Str(s), Json::Str(s)) == Json::Bool(true),
{
    let needle = a[i];
    assert(0 <= i < a.len() && a[i] == needle);
    let h = Json::Arr(a);
    assert(h->Arr_0[i] == needle);
    assert(s.subrange(0, 0 + s.len() as int) =~= s);
    assert(occurs_in(s, s));
}

/// A string starts and ends with itself and with the empty string.
pub proof fn law_prefix_suffix(s: Seq<char>)
    ensures
        is_prefix(s, s),
        is_suffix(s, s),
        is_prefix(Seq::empty(), s),
        is_suffix(Seq::empty(), s),
{
    assert(s.subrange(0, s.len() as int) =~= s);
    assert(s.subrange(0, 0) =~= Seq::<char>::empty());
    assert(s.subrange(s.len() as int, s.len() as int) =~= Seq::<char>::empty());
}

/// Joining one string gives that string, whatever the glue.
pub proof fn law_join_single(x: Seq<char>, glue: Seq<char>)
    ensures
        seq_join(seq![x], glue) == x,
{
}

/// The absolute value of a number is not negative.
pub proof fn law_abs_not_negative(v: Json)
    requires
        is_number(v),
        v matches Json::I64(n) ==> n != i64::MIN,
        v matches Json::F64(f) ==> f.is_canonical(),
    ensures
        is_number(abs_value(v)),
        num_mantissa(abs_value(v)) >= 0,
        num_exponent(abs_value(v)) == num_exponent(v),
{
    if let Json::F64(f) = v {
        let m: i64 = if f.m() < 0 {
            (-f.m()) as i64
        } else {
            f.m()
        };
        Float::lemma_from_parts(m, f.e());
    }
}

/// Registering the built-in functions twice is registering them once, and
/// after registering every built-in name is bound to its function.
pub proof fn law_register_core(m: Map<Seq<char>, CoreFunction>)
    ensures
        m.union_prefer_right(core_functions()).union_prefer_right(core_functions())
            == m.union_prefer_right(core_functions()),
        forall|k: Seq<char>| #[trigger] core_functions().contains_key(k) ==> m.union_prefer_right(
            core_functions(),
        )[k] == core_functions()[k],
{
    assert(m.union_prefer_right(core_functions()).union_prefer_right(core_functions())
        =~= m.union_prefer_right(core_functions()));
}

proof fn lemma_even_multiple(m: int, d: nat)
    requires
        d > 0,
    ensures
        (m * pow2(d)) % 2 == 0,
{
    lemma_pow2_unfold(d);
    let q = pow2((d - 1) as nat) as int;
    lemma_mul_is_associative(m, 2, q);
    assert(m * (2 * q) == (m * q) * 2) by (nonlinear_arith);
    assert(((m * q) * 2) % 2 == 0) by (nonlinear_arith);
}

proof fn lemma_canonical_same_value(f: Float, g: Float)
    requires
        f.is_canonical(),
        g.is_canonical(),
        f.e() <= g.e(),
        num_order(f.m() as int, f.e() as int, g.m() as int, g.e() as int)
            == Order::Equal,
    ensures
        f == g,
{
    let d = (g.e() - f.e()) as nat;
    lemma2_to64();
    assert(scaled(f.m() as int, f.e() as int, f.e() as int) == f.m() as int * pow2(0));
    let m1 = f.m() as int;
    let m2 = g.m() as int;
    assert(m1 == m2 * pow2(d));
    if d > 0 {
        lemma_even_multiple(m2, d);
        assert(m1 % 2 == 0);
        assert(m1 == 0);
        lemma_pow2_pos(d);
        assert(m2 == 0) by (nonlinear_arith)
            requires
                m2 * pow2(d) == 0,
                pow2(d) > 0,
        ;
        assert(false);
    } else {
        assert(m2 * pow2(0) == m2);
        assert(f.e() == g.e());
        assert(f.m() == g.m());
        Float::lemma_parts(f, g);
    }
}

/// Two canonical floats are equal exactly when their values are.
pub proof fn law_float_equality(f: Float, g: Float)
    requires
        f.is_canonical(),
        g.is_canonical(),
    ensures
        (num_order(f.m() as int, f.e() as int, g.m() as int, g.e() as int)
            == Order::Equal) <==> f == g,
{
    law_num_order_flip(f.m() as int, f.e() as int, g.m() as int, g.e() as int);
    if num_order(f.m() as int, f.e() as int, g.m() as int, g.e() as int)
        == Order::Equal {
        if f.e() <= g.e() {
            lemma_canonical_same_value(f, g);
        } else {
            lemma_canonical_same_value(g, f);
        }
    }
    if f == g {
        law_num_order_flip(f.m() as int, f.e() as int, f.m() as int, f.e() as int);
    }
}

proof fn lemma_by_scan_in_range(
    rs: Seq<Result<Json, ErrorModel>>,
    k: int,
    cand: int,
    entered: JsonType,
    mode: ByMode,
)
    requires
        0 <= cand < rs.len(),
        0 <= k,
    ensures
        by_scan(rs, k, cand, entered, mode) matches Ok(c) ==> 0 <= c < rs.len(),
    decreases rs.len() - k,
{
    if k < rs.len() {
        if let Ok(m) = rs[k] {
            if type_of(m) == entered {
                lemma_by_scan_in_range(rs, k + 1, k, entered, mode);
                lemma_by_scan_in_range(rs, k + 1, cand, entered, mode);
            }
        }
    }
}

/// What `max_by` and `min_by` return for a non-empty array is one of its
/// elements.
pub proof fn law_extreme_by_element(args: Seq<Json>, rs: Seq<Result<Json, ErrorModel>>, mode: ByMode)
    requires
        results_expected(args, 0, rs.len()),
        elems_of(args[0]).len() > 0,
    ensures
        extreme_by_result(args, rs, mode) matches Ok(v) ==> exists|i: int|
            0 <= i < elems_of(args[0]).len() && v == elems_of(args[0])[i],
{
    lemma_by_scan_in_range(rs, 1, 0, JsonType::Null, mode);
    if let Ok(m) = rs[0] {
        lemma_by_scan_in_range(rs, 1, 0, type_of(m), mode);
    }
    if let Ok(k) = by_outcome(rs, mode, "expression->number|expression->string"@) {
        let vals = elems_of(args[0]);
        assert(0 <= k < vals.len());
        assert(vals[k] == vals[k]);
    }
}

/// When `map` succeeds it returns one result per element.
pub proof fn law_map_length(args: Seq<Json>, rs: Seq<Result<Json, ErrorModel>>)
    ensures
        map_result(args, rs) matches Ok(v) ==> v matches Json::Arr(out) && out.len() == rs.len(),
{
}

/// Positional arguments pass validation exactly when there are as many as
/// the signature has types and each type accepts its argument.
pub proof fn law_validation_accepts(args: Seq<Json>, types: Seq<ArgSpec>)
    ensures
        check_args(args, types) is None <==> (args.len() == types.len() && forall|j: int|
            0 <= j < args.len() ==> accepts(#[trigger] types[j], args[j])),
{
    lemma_first_type_error_none(args, types, ArgSpec::Any, 0);
    if args.len() == types.len() {
        assert forall|j: int| 0 <= j < args.len() implies #[trigger] expected_type(types, ArgSpec::Any, j)
            == types[j] by {}
    }
}

/// Whether a value is in the order `Equal` to `x`.
pub open spec fn equal_to(x: Json) -> spec_fn(Json) -> bool {
    |y: Json| json_order(y, x) == Order::Equal
}

proof fn lemma_filter_none<A>(s: Seq<A>, pred: spec_fn(A) -> bool)
    requires
        forall|i: int| 0 <= i < s.len() ==> !pred(#[trigger] s[i]),
    ensures
        s.filter(pred) == Seq::<A>::empty(),
    decreases s.len(),
{
    reveal(Seq::filter);
    if s.len() > 0 {
        assert forall|i: int| 0 <= i < s.drop_last().len() implies !pred(
            #[trigger] s.drop_last()[i],
        ) by {
            assert(s.drop_last()[i] == s[i]);
        }
        lemma_filter_none(s.drop_last(), pred);
        assert(!pred(s[s.len() - 1]));
    } else {
        assert(s =~= Seq::<A>::empty());
    }
}

proof fn lemma_filter_single<A>(l: A, pred: spec_fn(A) -> bool)
    ensures
        seq![l].filter(pred) == if pred(l) {
            seq![l]
        } else {
            Seq::<A>::empty()
        },
{
    reveal(Seq::filter);
    assert(seq![l].drop_last() =~= Seq::<A>::empty());
    assert(Seq::<A>::empty().filter(pred) =~= Seq::<A>::empty());
    if pred(l) {
        assert(Seq::<A>::empty().push(l) =~= seq![l]);
    }
}

proof fn lemma_filter_three<A>(a: Seq<A>, l: A, b: Seq<A>, pred: spec_fn(A) -> bool)
    ensures
        (a + seq![l] + b).filter(pred) == a.filter(pred) + seq![l].filter(pred) + b.filter(pred),
{
    Seq::filter_distributes_over_add(a, b, pred);
    Seq::filter_distributes_over_add(a + seq![l], b, pred);
    Seq::filter_distributes_over_add(a, seq![l], pred);
}

/// In a sorted `t`, nothing after the place where `l` goes is equal to an `x`
/// that `l` is equal to.
proof fn lemma_after_insert_pos(t: Seq<Json>, l: Json, x: Json, k: int)
    requires
        sorted(t),
        uniform(t.push(l).push(x)),
        equal_to(x)(l),
        upper_pos(t, l) <= k < t.len(),
    ensures
        !equal_to(x)(t[k]),
{
    lemma_upper_pos(t, l);
    let u = t.push(l).push(x);
    let n = t.len() as int;
    let p = upper_pos(t, l);
    let y = t[k];
    assert(u[p] == t[p] && u[k] == y && u[n] == l && u[n + 1] == x);
    lemma_uniform_same_kind(u, p, n, k);
    lemma_uniform_same_kind(u, n, n + 1, k);
    if k > p {
        assert(json_order(t[p], y) != Order::Greater);
    } else {
        law_json_order_preorder(y, y, y);
    }
    lemma_uniform_same_kind(u, n, p, n + 1);
    law_json_order_preorder(t[p], l, x);
    law_json_order_preorder(l, t[p], y);
    assert(json_order(l, y) == Order::Less);
    law_json_order_preorder(l, y, x);
}

/// Putting `l` into a sorted `t` adds it to the elements equal to `x` at the
/// end, or leaves them as they were.
#[verifier::spinoff_prover]
proof fn lemma_insert_filter(t: Seq<Json>, l: Json, x: Json)
    requires
        sorted(t),
        uniform(t.push(l).push(x)),
    ensures
        insert_sorted(t, l).filter(equal_to(x)) == if equal_to(x)(l) {
            t.filter(equal_to(x)).push(l)
        } else {
            t.filter(equal_to(x))
        },
{
    let pred = equal_to(x);
    let n = t.len() as int;
    lemma_upper_pos(t, l);
    let p = upper_pos(t, l);
    let a = t.subrange(0, p);
    let b = t.subrange(p, n);
    assert(t =~= a + b);
    assert(t.insert(p, l) =~= a + seq![l] + b);
    lemma_filter_three(a, l, b, pred);
    lemma_filter_single(l, pred);
    if pred(l) {
        assert forall|i: int| 0 <= i < b.len() implies !pred(#[trigger] b[i]) by {
            assert(b[i] == t[p + i]);
            lemma_after_insert_pos(t, l, x, p + i);
        }
        lemma_filter_none(b, pred);
        assert(a.filter(pred) + seq![l] =~= a.filter(pred).push(l));
    }
    assert(a.filter(pred) + Seq::<Json>::empty() =~= a.filter(pred));
}

/// The sorted front of `s`, its last element and `x` are all strings or all
/// numbers when `s` and `x` are.
proof fn lemma_sorted_front_uniform(s: Seq<Json>, x: Json)
    requires
        s.len() > 0,
        uniform(s.push(x)),
    ensures
        uniform(sort_seq(s.drop_last()).push(s.last()).push(x)),
{
    let d = s.drop_last();
    let u = s.push(x);
    let n = s.len() as int;
    lemma_sort_keeps_kind(d);
    let w = sort_seq(d).push(s.last()).push(x);
    assert(u[n - 1] == s.last() && u[n] == x);
    if forall|i: int| 0 <= i < u.len() ==> #[trigger] u[i] is Str {
        assert forall|i: int| 0 <= i < d.len() implies #[trigger] d[i] is Str by {
            assert(d[i] == u[i]);
        }
        assert forall|i: int| 0 <= i < w.len() implies #[trigger] w[i] is Str by {}
    } else {
        assert forall|i: int| 0 <= i < d.len() implies is_number(#[trigger] d[i]) by {
            assert(d[i] == u[i]);
        }
        assert forall|i: int| 0 <= i < w.len() implies is_number(#[trigger] w[i]) by {}
    }
}

/// Sorting keeps equal elements in their relative order: the elements equal
/// to any `x` come out in the order in which they went in.
pub proof fn law_sort_stable(s: Seq<Json>, x: Json)
    requires
        uniform(s.push(x)),
    ensures
        sort_seq(s).filter(equal_to(x)) == s.filter(equal_to(x)),
    decreases s.len(),
{
    reveal(Seq::filter);
    if s.len() == 0 {
        assert(sort_seq(s) =~= s);
    } else {
        let d = s.drop_last();
        let u = s.push(x);
        assert(uniform(d.push(x))) by {
            assert forall|i: int| 0 <= i < d.len() implies #[trigger] d.push(x)[i] == u[i] by {}
            assert(d.push(x)[d.len() as int] == u[s.len() as int]);
        }
        assert(uniform(d)) by {
            assert forall|i: int| 0 <= i < d.len() implies #[trigger] d[i] == u[i] by {}
        }
        law_sort_stable(d, x);
        law_sort_sorted(d);
        lemma_sorted_front_uniform(s, x);
        lemma_insert_filter(sort_seq(d), s.last(), x);
    }
}



proof fn lemma_keys_of_drop_first(t: Seq<(Json, Json)>)
    requires
        t.len() > 0,
    ensures
        keys_of(t).drop_first() == keys_of(t.drop_first()),
{
    assert(keys_of(t).drop_first() =~= keys_of(t.drop_first()));
}

proof fn lemma_key_pos_upper(t: Seq<(Json, Json)>, k: Json)
    ensures
        key_pos(t, k) == upper_pos(keys_of(t), k),
    decreases t.len(),
{
    if t.len() > 0 {
        lemma_keys_of_drop_first(t);
        lemma_key_pos_upper(t.drop_first(), k);
    }
}

/// The keys of pairs sorted by key are the keys sorted.
proof fn lemma_keys_of_sort(s: Seq<(Json, Json)>)
    ensures
        keys_of(sort_by_key(s)) == sort_seq(keys_of(s)),
        sort_by_key(s).len() == s.len(),
    decreases s.len(),
{
    if s.len() > 0 {
        let d = s.drop_last();
        lemma_keys_of_sort(d);
        let t = sort_by_key(d);
        lemma_key_pos_upper(t, s.last().1);
        lemma_upper_pos(keys_of(t), s.last().1);
        assert(keys_of(s).drop_last() =~= keys_of(d));
        assert(keys_of(t.insert(key_pos(t, s.last().1), s.last())) =~= keys_of(t).insert(
            key_pos(t, s.last().1),
            s.last().1,
        ));
    }
}

/// Sorting by key keeps every pair and adds none: the result is a permutation.
pub proof fn law_sort_by_key_permutation(s: Seq<(Json, Json)>)
    ensures
        sort_by_key(s).to_multiset() == s.to_multiset(),
    decreases s.len(),
{
    if s.len() > 0 {
        let t = sort_by_key(s.drop_last());
        law_sort_by_key_permutation(s.drop_last());
        lemma_keys_of_sort(s.drop_last());
        lemma_key_pos_upper(t, s.last().1);
        lemma_upper_pos(keys_of(t), s.last().1);
        to_multiset_insert(t, key_pos(t, s.last().1), s.last());
        to_multiset_build(s.drop_last(), s.last());
        assert(s.drop_last().push(s.last()) =~= s);
    } else {
        assert(sort_by_key(s) =~= s);
    }
}

/// Sorting pairs whose keys are all strings, or all numbers, by key gives
/// non-decreasing keys.
pub proof fn law_sort_by_key_sorted(s: Seq<(Json, Json)>)
    requires
        uniform(keys_of(s)),
    ensures
        forall|i: int, j: int|
            0 <= i < j < sort_by_key(s).len() ==> json_order(
                #[trigger] sort_by_key(s)[i].1,
                #[trigger] sort_by_key(s)[j].1,
            ) != Order::Greater,
{
    lemma_keys_of_sort(s);
    law_sort_sorted(keys_of(s));
    let t = sort_by_key(s);
    assert forall|i: int, j: int| 0 <= i < j < t.len() implies json_order(
        #[trigger] t[i].1,
        #[trigger] t[j].1,
    ) != Order::Greater by {
        assert(keys_of(t)[i] == t[i].1 && keys_of(t)[j] == t[j].1);
    }
}

/// Whether a pair's key is in the order `Equal` to `x`.
pub open spec fn key_equal_to(x: Json) -> spec_fn((Json, Json)) -> bool {
    |p: (Json, Json)| json_order(p.1, x) == Order::Equal
}

#[verifier::spinoff_prover]
proof fn lemma_insert_by_key_filter(t: Seq<(Json, Json)>, l: (Json, Json), x: Json)
    requires
        sorted(keys_of(t)),
        uniform(keys_of(t).push(l.1).push(x)),
    ensures
        t.insert(key_pos(t, l.1), l).filter(key_equal_to(x)) == if key_equal_to(x)(l) {
            t.filter(key_equal_to(x)).push(l)
        } else {
            t.filter(key_equal_to(x))
        },
{
    let pred = key_equal_to(x);
    let n = t.len() as int;
    lemma_key_pos_upper(t, l.1);
    lemma_upper_pos(keys_of(t), l.1);
    let p = key_pos(t, l.1);
    let a = t.subrange(0, p);
    let b = t.subrange(p, n);
    assert(t =~= a + b);
    assert(t.insert(p, l) =~= a + seq![l] + b);
    lemma_filter_three(a, l, b, pred);
    lemma_filter_single(l, pred);
    if pred(l) {
        assert forall|i: int| 0 <= i < b.len() implies !pred(#[trigger] b[i]) by {
            assert(b[i] == t[p + i]);
            assert(keys_of(t)[p + i] == t[p + i].1);
            lemma_after_insert_pos(keys_of(t), l.1, x, p + i);
        }
        lemma_filter_none(b, pred);
        assert(a.filter(pred) + seq![l] =~= a.filter(pred).push(l));
    }
    assert(a.filter(pred) + Seq::<(Json, Json)>::empty() =~= a.filter(pred));
}

/// Sorting by key keeps pairs with equal keys in their relative order: the
/// pairs whose key is equal to any `x` come out in the order in which they
/// went in.
pub proof fn law_sort_by_key_stable(s: Seq<(Json, Json)>, x: Json)
    requires
        uniform(keys_of(s).push(x)),
    ensures
        sort_by_key(s).filter(key_equal_to(x)) == s.filter(key_equal_to(x)),
    decreases s.len(),
{
    reveal(Seq::filter);
    if s.len() == 0 {
        assert(sort_by_key(s) =~= s);
    } else {
        let d = s.drop_last();
        let ks = keys_of(s);
        assert(ks.drop_last() =~= keys_of(d));
        assert(ks.last() == s.last().1);
        let u = ks.push(x);
        assert(uniform(keys_of(d).push(x))) by {
            assert forall|i: int| 0 <= i < d.len() implies #[trigger] keys_of(d).push(x)[i] == u[i] by {}
            assert(keys_of(d).push(x)[d.len() as int] == u[s.len() as int]);
        }
        assert(uniform(keys_of(d))) by {
            assert forall|i: int| 0 <= i < d.len() implies #[trigger] keys_of(d)[i] == u[i] by {}
        }
        law_sort_by_key_stable(d, x);
        lemma_keys_of_sort(d);
        law_sort_sorted(keys_of(d));
        lemma_sorted_front_uniform(ks, x);
        lemma_insert_by_key_filter(sort_by_key(d), s.last(), x);
    }
}

/// When `sort_by` succeeds on a non-empty array, the keys of its elements are
/// all strings or all numbers, and the result is the elements in the order
/// of [`sort_by_key`] (permuted, keys non-decreasing, equal keys in their
/// order, by the laws above).
pub proof fn law_sort_by_sorts(args: Seq<Json>, rs: Seq<Result<Json, ErrorModel>>)
    requires
        check_args(args, by_signature()) is None ==> results_expected(args, 0, rs.len()),
    ensures
        elems_of(args[0]).len() > 0 ==> (sort_by_result(args, rs) matches Ok(v) ==> v == Json::Arr(
            firsts(sort_by_key(pair_up(elems_of(args[0]), rs))),
        ) && uniform(keys_of(pair_up(elems_of(args[0]), rs)))),
{
    if check_args(args, by_signature()) is None && elems_of(args[0]).len() > 0 {
        if by_outcome(rs, ByMode::Check, sort_by_expected()) is Ok {
            let m = rs[0]->Ok_0;
            lemma_by_scan_ok(rs, 1, 0, type_of(m));
            let ks = keys_of(pair_up(elems_of(args[0]), rs));
            assert forall|i: int| 0 <= i < ks.len() implies type_of(#[trigger] ks[i]) == type_of(m) by {
                assert(ks[i] == ok_value(rs[i]));
            }
            if type_of(m) == JsonType::String {
                assert forall|i: int| 0 <= i < ks.len() implies #[trigger] ks[i] is Str by {
                    assert(type_of(ks[i]) == JsonType::String);
                }
            } else {
                assert forall|i: int| 0 <= i < ks.len() implies is_number(#[trigger] ks[i]) by {
                    assert(type_of(ks[i]) == JsonType::Number);
                }
            }
        }
    }
}

/// A scan that succeeds from `k` on finds only successful results of the
/// entered type from `k` on.
proof fn lemma_by_scan_ok(rs: Seq<Result<Json, ErrorModel>>, k: int, cand: int, entered: JsonType)
    requires
        0 <= k,
        by_scan(rs, k, cand, entered, ByMode::Check) is Ok,
    ensures
        forall|i: int| k <= i < rs.len() ==> (#[trigger] rs[i]) is Ok && type_of(rs[i]->Ok_0)
            == entered,
    decreases rs.len() - k,
{
    if k < rs.len() {
        lemma_by_scan_ok(rs, k + 1, cand, entered);
    }
}

/// Members whose values are all valid.
pub open spec fn values_valid(es: Seq<(Seq<char>, Json)>) -> bool {
    forall|i: int| 0 <= i < es.len() ==> valid(#[trigger] es[i].1)
}

proof fn lemma_insert_member_values(es: Seq<(Seq<char>, Json)>, k: Seq<char>, v: Json)
    requires
        values_valid(es),
        valid(v),
    ensures
        values_valid(insert_member(es, k, v)),
{
    let p = insert_pos(es, k);
    let r = insert_member(es, k, v);
    lemma_insert_pos(es, k);
    assert forall|i: int| 0 <= i < r.len() implies valid(#[trigger] r[i].1) by {
        if p < es.len() && es[p].0 == k {
            if i != p {
                assert(r[i] == es[i]);
            }
        } else if i < p {
            assert(r[i] == es[i]);
        } else if i > p {
            assert(r[i] == es[i - 1]);
        }
    }
}

proof fn lemma_insert_all_values(acc: Seq<(Seq<char>, Json)>, ms: Seq<(Seq<char>, Json)>)
    requires
        values_valid(acc),
        values_valid(ms),
    ensures
        values_valid(insert_all(acc, ms)),
    decreases ms.len(),
{
    if ms.len() > 0 {
        lemma_insert_member_values(acc, ms[0].0, ms[0].1);
        assert forall|i: int| 0 <= i < ms.drop_first().len() implies valid(
            #[trigger] ms.drop_first()[i].1,
        ) by {
            assert(ms.drop_first()[i] == ms[i + 1]);
        }
        lemma_insert_all_values(insert_member(acc, ms[0].0, ms[0].1), ms.drop_first());
    }
}

proof fn lemma_merge_values(objs: Seq<Json>)
    requires
        forall|i: int| 0 <= i < objs.len() ==> valid(#[trigger] objs[i]),
    ensures
        values_valid(merge_members(objs)),
    decreases objs.len(),
{
    if objs.len() > 0 {
        let d = objs.drop_last();
        assert forall|i: int| 0 <= i < d.len() implies valid(#[trigger] d[i]) by {
            assert(d[i] == objs[i]);
        }
        lemma_merge_values(d);
        assert(valid(objs[objs.len() - 1]));
        lemma_insert_all_values(merge_members(d), members_of(objs.last()));
    }
}

/// Every built-in function that needs nothing from the interpreter maps valid
/// arguments (objects with strictly increasing keys, at any depth) to a
/// valid result.
pub proof fn law_valid_kept(f: CoreFunction, args: Seq<Json>)
    requires
        forall|i: int| 0 <= i < args.len() ==> valid(#[trigger] args[i]),
    ensures
        direct_result(f, args) matches Some(Ok(v)) ==> valid(v),
{
    match f {
        CoreFunction::Keys => {
            let ks = entry_keys(members_of(args[0]));
            assert forall|i: int| 0 <= i < ks.len() implies valid(#[trigger] ks[i]) by {}
        },
        CoreFunction::Values => {
            if check_args(args, seq![ArgSpec::Object]) is None {
                lemma_check_args_ok(args, seq![ArgSpec::Object]);
                assert(valid(args[0]));
                let es = members_of(args[0]);
                assert forall|i: int| 0 <= i < es.len() implies valid(#[trigger] entry_values(es)[i]) by {
                    assert(entry_values(es)[i] == es[i].1);
                }
            }
        },
        CoreFunction::Reverse => {
            if check_args(args, reverse_signature()) is None {
                lemma_check_args_ok(args, reverse_signature());
                assert(valid(args[0]));
                if let Json::Arr(a) = args[0] {
                    assert forall|i: int| 0 <= i < a.len() implies valid(#[trigger] a.reverse()[i]) by {
                        assert(a.reverse()[i] == a[a.len() - 1 - i]);
                    }
                }
            }
        },
        CoreFunction::NotNull => {
            law_not_null(args);
        },
        CoreFunction::ToArray => {
            if check_args(args, seq![ArgSpec::Any]) is None {
                lemma_check_args_ok(args, seq![ArgSpec::Any]);
                assert(valid(args[0]));
                assert(valid(seq![args[0]][0]));
            }
        },
        CoreFunction::Max | CoreFunction::Min => {
            if check_args(args, sortable_signature()) is None {
                lemma_check_args_ok(args, sortable_signature());
                assert(valid(args[0]));
                law_sortable_is_uniform(args[0]);
                let a = elems_of(args[0]);
                if a.len() > 0 {
                    law_max_is_greatest(a);
                    law_min_is_least(a);
                    let i = choose|i: int| 0 <= i < a.len() && max_value(a) == a[i];
                    let j = choose|j: int| 0 <= j < a.len() && min_value(a) == a[j];
                    assert(valid(a[i]) && valid(a[j]));
                }
            }
        },
        CoreFunction::Sort => {
            if check_args(args, sortable_signature()) is None {
                lemma_check_args_ok(args, sortable_signature());
                law_sortable_is_uniform(args[0]);
                let a = elems_of(args[0]);
                lemma_sort_keeps_kind(a);
                let t = sort_seq(a);
                assert forall|i: int| 0 <= i < t.len() implies valid(#[trigger] t[i]) by {
                    if forall|k: int| 0 <= k < a.len() ==> #[trigger] a[k] is Str {
                        assert(t[i] is Str);
                    } else {
                        assert(is_number(t[i]));
                    }
                }
            }
        },
        CoreFunction::Merge => {
            if check_variadic_args(args, seq![ArgSpec::Object], ArgSpec::Object) is None {
                law_merge_last_wins(args);
                lemma_merge_values(args);
            }
        },
        _ => {},
    }
}

/// `map` gives a valid result where the expression gives valid values.
pub proof fn law_map_valid(args: Seq<Json>, rs: Seq<Result<Json, ErrorModel>>)
    requires
        forall|i: int| 0 <= i < rs.len() ==> (#[trigger] rs[i] matches Ok(x) ==> valid(x)),
    ensures
        map_result(args, rs) matches Ok(v) ==> valid(v),
{
    let out = Seq::new(rs.len(), |i: int| ok_value(rs[i]));
    assert forall|i: int| 0 <= i < out.len() implies valid(#[trigger] out[i]) by {
        assert(rs[i] matches Ok(x) ==> valid(x));
    }
}

/// `max_by` and `min_by` give a valid result on valid arguments.
pub proof fn law_extreme_by_valid(args: Seq<Json>, rs: Seq<Result<Json, ErrorModel>>, mode: ByMode)
    requires
        forall|i: int| 0 <= i < args.len() ==> valid(#[trigger] args[i]),
        check_args(args, by_signature()) is None ==> results_expected(args, 0, rs.len()),
    ensures
        extreme_by_result(args, rs, mode) matches Ok(v) ==> valid(v),
{
    if check_args(args, by_signature()) is None && elems_of(args[0]).len() > 0 {
        lemma_check_args_ok(args, by_signature());
        assert(valid(args[0]));
        law_extreme_by_element(args, rs, mode);
        if extreme_by_result(args, rs, mode) is Ok {
            let a = elems_of(args[0]);
            let i = choose|i: int| 0 <= i < a.len() && extreme_by_result(args, rs, mode)->Ok_0 == a[i];
            assert(valid(a[i]));
        }
    }
}

/// `sort_by` gives a valid result on valid arguments.
pub proof fn law_sort_by_valid(args: Seq<Json>, rs: Seq<Result<Json, ErrorModel>>)
    requires
        forall|i: int| 0 <= i < args.len() ==> valid(#[trigger] args[i]),
        check_args(args, by_signature()) is None ==> results_expected(args, 0, rs.len()),
    ensures
        sort_by_result(args, rs) matches Ok(v) ==> valid(v),
{
    if check_args(args, by_signature()) is None {
        lemma_check_args_ok(args, by_signature());
        assert(valid(args[0]));
        let a = elems_of(args[0]);
        let p = pair_up(a, rs);
        let t = sort_by_key(p);
        law_sort_by_key_permutation(p);
        p.to_multiset_ensures();
        t.to_multiset_ensures();
        assert forall|i: int| 0 <= i < t.len() implies valid(#[trigger] firsts(t)[i]) by {
            assert(t.contains(t[i]));
            assert(t.to_multiset().count(t[i]) > 0);
            assert(p.to_multiset().count(t[i]) > 0);
            assert(p.contains(t[i]));
            let j = choose|j: int| 0 <= j < p.len() && p[j] == t[i];
            assert(p[j].0 == a[j]);
        }
    }
}

/// `to_number` and `to_string` give a valid result on a valid argument and
/// a valid reading of JSON text.
pub proof fn law_conversions_valid(args: Seq<Json>, parsed: Option<Json>, text: Seq<char>)
    requires
        forall|i: int| 0 <= i < args.len() ==> valid(#[trigger] args[i]),
        parsed matches Some(p) ==> valid(p),
    ensures
        to_number_result(args, parsed) matches Ok(v) ==> valid(v),
        to_string_result(args, text) matches Ok(v) ==> valid(v),
{
    if check_args(args, seq![ArgSpec::Any]) is None {
        lemma_check_args_ok(args, seq![ArgSpec::Any]);
        assert(valid(args[0]));
    }
}

/// For a valid object, `keys` gives its keys in strictly increasing order,
/// so each once, and `values` the values in the same order: each key maps to
/// the value at its position, and the object holds no other key.
pub proof fn law_keys_values_of_valid(args: Seq<Json>, k: Seq<char>)
    requires
        args.len() > 0,
        valid(args[0]),
    ensures
        keys_result(args) matches Ok(Json::Arr(ks)) ==> {
            &&& values_result(args) matches Ok(Json::Arr(vs))
            &&& ks.len() == vs.len() == members_of(args[0]).len()
            &&& forall|i: int, j: int|
                0 <= i < j < ks.len() ==> text_order(str_of(#[trigger] ks[i]), str_of(#[trigger] ks[j]))
                    == Order::Less
            &&& forall|i: int|
                0 <= i < ks.len() ==> #[trigger] members_map(members_of(args[0])).dom().contains(
                    str_of(ks[i]),
                ) && members_map(members_of(args[0]))[str_of(ks[i])] == vs[i]
            &&& members_map(members_of(args[0])).dom().contains(k) <==> exists|i: int|
                0 <= i < ks.len() && str_of(#[trigger] ks[i]) == k
        },
{
    if check_args(args, seq![ArgSpec::Object]) is None {
        lemma_check_args_ok(args, seq![ArgSpec::Object]);
        law_keys_values_rebuild(members_of(args[0]), k);
    }
}

/// Evaluating a built-in function on valid arguments gives a valid result,
/// where what the interpreter gives is valid.
pub proof fn law_evaluate_keeps_valid<I: Interpreter>(f: CoreFunction, args: Seq<Json>, intr: &I)
    requires
        forall|i: int| 0 <= i < args.len() ==> valid(#[trigger] args[i]),
        forall|d: Json, a: Ast| #[trigger] intr.interpreted(d, a) matches Ok(x) ==> valid(x),
        forall|t: Seq<char>| #[trigger] intr.parsed(t) matches Some(p) ==> valid(p),
        forall|g: FloatFunction, xs: Seq<Json>| #[trigger] intr.float_computed(g, xs) matches Ok(x) ==> valid(x),
    ensures
        core_result(f, args, intr) matches Ok(v) ==> valid(v),
{
    match f {
        CoreFunction::MapEach => {
            let rs = applied(intr, elems_of(args[1]), args[0]);
            assert forall|i: int| 0 <= i < rs.len() implies (#[trigger] rs[i] matches Ok(x) ==> valid(x)) by {
                assert(rs[i] == intr.interpreted(elems_of(args[1])[i], crate::registry::expref_ast(args[0])));
            }
            law_map_valid(args, rs);
        },
        CoreFunction::MaxBy => {
            law_extreme_by_valid(args, applied(intr, elems_of(args[0]), args[1]), ByMode::Greatest);
        },
        CoreFunction::MinBy => {
            law_extreme_by_valid(args, applied(intr, elems_of(args[0]), args[1]), ByMode::Least);
        },
        CoreFunction::SortBy => {
            law_sort_by_valid(args, applied(intr, elems_of(args[0]), args[1]));
        },
        CoreFunction::ToNumber | CoreFunction::ToString => {
            law_conversions_valid(args, intr.parsed(str_of(args[0])), intr.rendered(args[0]));
        },
        CoreFunction::Avg | CoreFunction::Sum => {},
        _ => {
            law_valid_kept(f, args);
        },
    }
}

/// No two pairs of `s` have keys in the order `Equal`.
pub open spec fn keys_distinct(s: Seq<(Json, Json)>) -> bool {
    forall|i: int, j: int| 0 <= i < j < s.len() ==> json_order(#[trigger] s[i].1, #[trigger] s[j].1) != Order::Equal
}

/// A pair of `t` is a pair of `s` where the two hold the same pairs.
proof fn lemma_pair_from(s: Seq<(Json, Json)>, t: Seq<(Json, Json)>, i: int) -> (j: int)
    requires
        t.to_multiset() == s.to_multiset(),
        0 <= i < t.len(),
    ensures
        0 <= j < s.len(),
        s[j] == t[i],
{
    s.to_multiset_ensures();
    t.to_multiset_ensures();
    assert(t.contains(t[i]));
    assert(t.to_multiset().count(t[i]) > 0);
    assert(s.to_multiset().count(t[i]) > 0);
    assert(s.contains(t[i]));
    choose|j: int| 0 <= j < s.len() && s[j] == t[i]
}

proof fn lemma_uniform_keys_transfer(s: Seq<(Json, Json)>, t: Seq<(Json, Json)>)
    requires
        t.to_multiset() == s.to_multiset(),
        uniform(keys_of(s)),
    ensures
        uniform(keys_of(t)),
{
    if forall|k: int| 0 <= k < keys_of(s).len() ==> #[trigger] keys_of(s)[k] is Str {
        assert forall|i: int| 0 <= i < keys_of(t).len() implies #[trigger] keys_of(t)[i] is Str by {
            let j = lemma_pair_from(s, t, i);
            assert(keys_of(s)[j] == s[j].1);
        }
    } else {
        assert forall|i: int| 0 <= i < keys_of(t).len() implies is_number(#[trigger] keys_of(t)[i]) by {
            let j = lemma_pair_from(s, t, i);
            assert(keys_of(s)[j] == s[j].1);
        }
    }
}

proof fn lemma_keys_distinct_transfer(s: Seq<(Json, Json)>, t: Seq<(Json, Json)>)
    requires
        t.to_multiset() == s.to_multiset(),
        uniform(keys_of(s)),
        keys_distinct(s),
    ensures
        keys_distinct(t),
{
    let ks = keys_of(s);
    assert(s.no_duplicates()) by {
        assert forall|i: int, j: int| 0 <= i < s.len() && 0 <= j < s.len() && i != j implies s[i] != s[j] by {
            assert(ks[i] == s[i].1 && ks[j] == s[j].1);
            lemma_uniform_same_kind(ks, i, i, i);
            law_json_order_preorder(s[i].1, s[i].1, s[i].1);
        }
    }
    s.lemma_multiset_has_no_duplicates();
    t.lemma_multiset_has_no_duplicates_conv();
    assert forall|i: int, j: int| 0 <= i < j < t.len() implies json_order(
        #[trigger] t[i].1,
        #[trigger] t[j].1,
    ) != Order::Equal by {
        let a = lemma_pair_from(s, t, i);
        let b = lemma_pair_from(s, t, j);
        assert(a != b);
        assert(ks[a] == s[a].1 && ks[b] == s[b].1);
        lemma_uniform_same_kind(ks, a, b, b);
        law_json_order_preorder(s[a].1, s[b].1, s[b].1);
    }
}

/// Two sequences of the same pairs whose keys strictly increase are equal.
proof fn lemma_strictly_sorted_unique(t1: Seq<(Json, Json)>, t2: Seq<(Json, Json)>)
    requires
        t1.to_multiset() == t2.to_multiset(),
        uniform(keys_of(t1)),
        forall|i: int, j: int| 0 <= i < j < t1.len() ==> json_order(#[trigger] t1[i].1, #[trigger] t1[j].1) == Order::Less,
        forall|i: int, j: int| 0 <= i < j < t2.len() ==> json_order(#[trigger] t2[i].1, #[trigger] t2[j].1) == Order::Less,
    ensures
        t1 == t2,
    decreases t1.len(),
{
    t1.to_multiset_ensures();
    t2.to_multiset_ensures();
    if t1.len() == 0 {
        assert(t2.len() == 0);
        assert(t1 =~= t2);
    } else {
        let ks = keys_of(t1);
        let j = lemma_pair_from(t2, t1, 0);
        let k = lemma_pair_from(t1, t2, 0);
        assert(ks[0] == t1[0].1 && ks[k] == t1[k].1);
        lemma_uniform_same_kind(ks, 0, k, k);
        law_json_order_preorder(t1[0].1, t1[k].1, t1[k].1);
        if j > 0 {
            // t2[0] comes before t2[j] == t1[0], and t1[0] does not come after t1[k] == t2[0]
            assert(json_order(t2[0].1, t2[j].1) == Order::Less);
            assert(false);
        }
        assert(t1[0] == t2[0]);
        let r1 = t1.drop_first();
        let r2 = t2.drop_first();
        assert(t1.remove(0) =~= r1);
        assert(t2.remove(0) =~= r2);
        assert(r1.to_multiset() =~= r2.to_multiset());
        assert(uniform(keys_of(r1))) by {
            if forall|m: int| 0 <= m < ks.len() ==> #[trigger] ks[m] is Str {
                assert forall|m: int| 0 <= m < keys_of(r1).len() implies #[trigger] keys_of(r1)[m] is Str by {
                    assert(keys_of(r1)[m] == ks[m + 1]);
                }
            } else {
                assert forall|m: int| 0 <= m < keys_of(r1).len() implies is_number(#[trigger] keys_of(r1)[m]) by {
                    assert(keys_of(r1)[m] == ks[m + 1]);
                }
            }
        }
        assert forall|a: int, b: int| 0 <= a < b < r1.len() implies json_order(#[trigger] r1[a].1, #[trigger] r1[b].1) == Order::Less by {
            assert(r1[a] == t1[a + 1] && r1[b] == t1[b + 1]);
        }
        assert forall|a: int, b: int| 0 <= a < b < r2.len() implies json_order(#[trigger] r2[a].1, #[trigger] r2[b].1) == Order::Less by {
            assert(r2[a] == t2[a + 1] && r2[b] == t2[b + 1]);
        }
        lemma_strictly_sorted_unique(r1, r2);
        assert(t1 =~= t2) by {
            assert forall|m: int| 0 <= m < t1.len() implies t1[m] == t2[m] by {
                if m > 0 {
                    assert(t1[m] == r1[m - 1] && t2[m] == r2[m - 1]);
                }
            }
        }
    }
}

proof fn lemma_sorted_distinct_strict(t: Seq<(Json, Json)>)
    requires
        uniform(keys_of(t)),
        keys_distinct(t),
    ensures
        forall|i: int, j: int| 0 <= i < j < sort_by_key(t).len() ==> json_order(
            #[trigger] sort_by_key(t)[i].1,
            #[trigger] sort_by_key(t)[j].1,
        ) == Order::Less,
{
    law_sort_by_key_sorted(t);
    law_sort_by_key_permutation(t);
    lemma_keys_distinct_transfer(t, sort_by_key(t));
}

/// Where no two keys are equal, sorting by key does not depend on the order
/// of the input: the same pairs in any order give the same result.
pub proof fn law_sort_by_key_order_free(s1: Seq<(Json, Json)>, s2: Seq<(Json, Json)>)
    requires
        s1.to_multiset() == s2.to_multiset(),
        uniform(keys_of(s1)),
        keys_distinct(s1),
    ensures
        sort_by_key(s1) == sort_by_key(s2),
{
    lemma_uniform_keys_transfer(s1, s2);
    lemma_keys_distinct_transfer(s1, s2);
    lemma_sorted_distinct_strict(s1);
    lemma_sorted_distinct_strict(s2);
    law_sort_by_key_permutation(s1);
    law_sort_by_key_permutation(s2);
    lemma_uniform_keys_transfer(s1, sort_by_key(s1));
    lemma_strictly_sorted_unique(sort_by_key(s1), sort_by_key(s2));
}

/// Where no two keys are equal, `sort_by` succeeding on the same elements
/// with the same keys in two orders gives the same array.
pub proof fn law_sort_by_order_free(
    args1: Seq<Json>,
    rs1: Seq<Result<Json, ErrorModel>>,
    args2: Seq<Json>,
    rs2: Seq<Result<Json, ErrorModel>>,
)
    requires
        check_args(args1, by_signature()) is None ==> results_expected(args1, 0, rs1.len()),
        check_args(args2, by_signature()) is None ==> results_expected(args2, 0, rs2.len()),
        pair_up(elems_of(args1[0]), rs1).to_multiset() == pair_up(elems_of(args2[0]), rs2).to_multiset(),
        keys_distinct(pair_up(elems_of(args1[0]), rs1)),
    ensures
        sort_by_result(args1, rs1) matches Ok(v1) ==> (sort_by_result(args2, rs2) matches Ok(v2)
            ==> v1 == v2),
{
    let p1 = pair_up(elems_of(args1[0]), rs1);
    let p2 = pair_up(elems_of(args2[0]), rs2);
    p1.to_multiset_ensures();
    p2.to_multiset_ensures();
    law_sort_by_sorts(args1, rs1);
    law_sort_by_sorts(args2, rs2);
    if sort_by_result(args1, rs1) is Ok && sort_by_result(args2, rs2) is Ok {
        if elems_of(args1[0]).len() > 0 {
            law_sort_by_key_order_free(p1, p2);
        } else {
            assert(elems_of(args2[0]).len() == 0);
            assert(elems_of(args1[0]) =~= elems_of(args2[0]));
        }
    }
}

/// `reverse` of a string gives its characters last first, and of an array its
/// elements last first: position `i` of the result holds what position
/// `len - 1 - i` of the argument held.
pub proof fn law_reverse_positions(args: Seq<Json>)
    ensures
        reverse_result(args) matches Ok(Json::Str(r)) ==> args[0] is Str && r.len()
            == args[0]->Str_0.len() && forall|i: int|
            0 <= i < r.len() ==> #[trigger] r[i] == args[0]->Str_0[r.len() - 1 - i],
        reverse_result(args) matches Ok(Json::Arr(r)) ==> args[0] is Arr && r.len()
            == args[0]->Arr_0.len() && forall|i: int|
            0 <= i < r.len() ==> #[trigger] r[i] == args[0]->Arr_0[r.len() - 1 - i],
{
    if check_args(args, reverse_signature()) is None {
        lemma_check_args_ok(args, reverse_signature());
        lemma_any_accepts(seq![ArgSpec::Array, ArgSpec::String], args[0]);
    }
}

/// `contains` of two strings is true exactly when the second occurs in the
/// first: the first is some string, then the second, then some string.
pub proof fn law_contains_substring(s: Seq<char>, n: Seq<char>)
    ensures
        contains_result(seq![Json::Str(s), Json::Str(n)]) == Ok::<Json, ErrorModel>(
            Json::Bool(exists|p: Seq<char>, q: Seq<char>| #[trigger] (p + n + q) == s),
        ),
{
    let args = seq![Json::Str(s), Json::Str(n)];
    law_validation_accepts(args, contains_signature());
    assert(accepts(contains_signature()[0], args[0])) by {
        lemma_any_accepts(seq![ArgSpec::String, ArgSpec::Array], args[0]);
        assert(accepts(seq![ArgSpec::String, ArgSpec::Array][0], args[0]));
    }
    assert(accepts(contains_signature()[1], args[1]));
    assert(check_args(args, contains_signature()) is None);
    if occurs_in(n, s) {
        let i = choose|i: int| 0 <= i && i + n.len() <= s.len() && #[trigger] s.subrange(i, i + n.len()) == n;
        let p = s.subrange(0, i);
        let q = s.subrange(i + n.len(), s.len() as int);
        assert(p + n + q =~= s);
    }
    if exists|p: Seq<char>, q: Seq<char>| #[trigger] (p + n + q) == s {
        let (p, q) = choose|p: Seq<char>, q: Seq<char>| #[trigger] (p + n + q) == s;
        assert(s.subrange(p.len() as int, p.len() + n.len() as int) =~= n);
    }
}

/// `a` comes before `b` in dictionary order: `a` is a proper prefix of `b`, or
/// at the first position where they differ `a` has the smaller character.
pub open spec fn lex_before(a: Seq<char>, b: Seq<char>) -> bool {
    ||| a.len() < b.len() && b.subrange(0, a.len() as int) == a
    ||| exists|k: int|
        0 <= k < a.len() && k < b.len() && a.subrange(0, k) == b.subrange(0, k) && #[trigger] a[k]
            < #[trigger] b[k]
}

proof fn lemma_text_order_lex(a: Seq<char>, b: Seq<char>)
    ensures
        (text_order(a, b) == Order::Less) <==> lex_before(a, b),
    decreases a.len(),
{
    if a.len() == 0 {
        if b.len() > 0 {
            assert(b.subrange(0, 0) =~= a);
        }
    } else if b.len() == 0 {
    } else if a[0] < b[0] {
        assert(a.subrange(0, 0) =~= b.subrange(0, 0));
    } else if a[0] > b[0] {
        if a.len() < b.len() && b.subrange(0, a.len() as int) == a {
            assert(b.subrange(0, a.len() as int)[0] == b[0]);
        }
        if exists|k: int|
            0 <= k < a.len() && k < b.len() && a.subrange(0, k) == b.subrange(0, k) && #[trigger] a[k]
                < #[trigger] b[k] {
            let k = choose|k: int|
                0 <= k < a.len() && k < b.len() && a.subrange(0, k) == b.subrange(0, k) && #[trigger] a[k]
                    < #[trigger] b[k];
            if k > 0 {
                assert(a.subrange(0, k)[0] == b.subrange(0, k)[0]);
            }
        }
    } else {
        let a1 = a.drop_first();
        let b1 = b.drop_first();
        lemma_text_order_lex(a1, b1);
        // the prefix case moves by one position
        if a1.len() < b1.len() && b1.subrange(0, a1.len() as int) == a1 {
            assert(b.subrange(0, a.len() as int) =~= a) by {
                assert forall|m: int| 0 <= m < a.len() implies b.subrange(0, a.len() as int)[m] == a[m] by {
                    if m > 0 {
                        assert(b1.subrange(0, a1.len() as int)[m - 1] == a1[m - 1]);
                    }
                }
            }
        }
        if a.len() < b.len() && b.subrange(0, a.len() as int) == a {
            assert(b1.subrange(0, a1.len() as int) =~= a1) by {
                assert forall|m: int| 0 <= m < a1.len() implies b1.subrange(0, a1.len() as int)[m] == a1[m] by {
                    assert(b.subrange(0, a.len() as int)[m + 1] == a[m + 1]);
                }
            }
        }
        // the differing position moves by one
        if exists|k: int|
            0 <= k < a1.len() && k < b1.len() && a1.subrange(0, k) == b1.subrange(0, k) && #[trigger] a1[k]
                < #[trigger] b1[k] {
            let k = choose|k: int|
                0 <= k < a1.len() && k < b1.len() && a1.subrange(0, k) == b1.subrange(0, k) && #[trigger] a1[k]
                    < #[trigger] b1[k];
            assert(a.subrange(0, k + 1) =~= b.subrange(0, k + 1)) by {
                assert forall|m: int| 0 <= m < k + 1 implies #[trigger] a.subrange(0, k + 1)[m] == b.subrange(0, k + 1)[m] by {
                    if m > 0 {
                        assert(a1.subrange(0, k)[m - 1] == b1.subrange(0, k)[m - 1]);
                    }
                }
            }
            assert(a[k + 1] < b[k + 1]);
        }
        if exists|k: int|
            0 <= k < a.len() && k < b.len() && a.subrange(0, k) == b.subrange(0, k) && #[trigger] a[k]
                < #[trigger] b[k] {
            let k = choose|k: int|
                0 <= k < a.len() && k < b.len() && a.subrange(0, k) == b.subrange(0, k) && #[trigger] a[k]
                    < #[trigger] b[k];
            assert(k > 0);
            assert(a1.subrange(0, k - 1) =~= b1.subrange(0, k - 1)) by {
                assert forall|m: int| 0 <= m < k - 1 implies #[trigger] a1.subrange(0, k - 1)[m] == b1.subrange(0, k - 1)[m] by {
                    assert(a.subrange(0, k)[m + 1] == b.subrange(0, k)[m + 1]);
                }
            }
            assert(a1[k - 1] < b1[k - 1]);
        }
    }
}

/// Strings are ordered as words in a dictionary, by all their characters:
/// equal only when they are the same string, one before another exactly as
/// [`lex_before`] says, and after it exactly when the other comes before.
pub proof fn law_string_order(s: Seq<char>, t: Seq<char>)
    ensures
        (json_order(Json::Str(s), Json::Str(t)) == Order::Equal) <==> s == t,
        (json_order(Json::Str(s), Json::Str(t)) == Order::Less) <==> ((s.len() < t.len()
            && t.subrange(0, s.len() as int) == s) || exists|k: int|
            0 <= k < s.len() && k < t.len() && s.subrange(0, k) == t.subrange(0, k) && #[trigger] s[k]
                < #[trigger] t[k]),
        (json_order(Json::Str(s), Json::Str(t)) == Order::Greater) <==> json_order(
            Json::Str(t),
            Json::Str(s),
        ) == Order::Less,
{
    law_text_order_equal(s, t);
    lemma_text_order_lex(s, t);
    law_text_order_flip(s, t);
}

/// The total length of some strings.
pub open spec fn total_len(xs: Seq<Seq<char>>) -> int
    decreases xs.len(),
{
    if xs.len() == 0 {
        0
    } else {
        total_len(xs.drop_last()) + xs.last().len()
    }
}

/// Where piece `i` starts when the strings `xs` are laid out with `g` between
/// each two: after the earlier pieces and one `g` after each of them.
pub open spec fn piece_start(xs: Seq<Seq<char>>, g: Seq<char>, i: int) -> int {
    total_len(xs.take(i)) + i * g.len()
}

/// `r` is the strings `xs` laid out in order with `g` between each two, every
/// string (empty ones too) in its place: its length is the total length of
/// `xs` and one `g` fewer than there are strings, piece `i` sits at
/// [`piece_start`], and a `g` follows each piece but the last.
pub open spec fn laid_out(r: Seq<char>, xs: Seq<Seq<char>>, g: Seq<char>) -> bool {
    &&& r.len() == total_len(xs) + if xs.len() > 0 {
        (xs.len() - 1) * g.len()
    } else {
        0
    }
    &&& forall|i: int|
        0 <= i < xs.len() ==> r.subrange(piece_start(xs, g, i), piece_start(xs, g, i) + xs[i].len())
            == #[trigger] xs[i]
    &&& forall|i: int|
        0 <= i < xs.len() - 1 ==> #[trigger] r.subrange(
            piece_start(xs, g, i) + xs[i].len(),
            piece_start(xs, g, i + 1),
        ) == g
}

proof fn lemma_total_take_step(xs: Seq<Seq<char>>, i: int)
    requires
        0 <= i < xs.len(),
    ensures
        total_len(xs.take(i + 1)) == total_len(xs.take(i)) + xs[i].len(),
        total_len(xs.take(i)) >= 0,
{
    assert(xs.take(i + 1).drop_last() =~= xs.take(i));
    lemma_total_nonneg(xs.take(i));
}

proof fn lemma_total_nonneg(xs: Seq<Seq<char>>)
    ensures
        total_len(xs) >= 0,
    decreases xs.len(),
{
    if xs.len() > 0 {
        lemma_total_nonneg(xs.drop_last());
    }
}

proof fn lemma_total_take_mono(xs: Seq<Seq<char>>, i: int, j: int)
    requires
        0 <= i <= j <= xs.len(),
    ensures
        total_len(xs.take(i)) <= total_len(xs.take(j)),
    decreases j - i,
{
    if i < j {
        lemma_total_take_step(xs, j - 1);
        lemma_total_take_mono(xs, i, j - 1);
    }
}

proof fn lemma_subrange_of_front(a: Seq<char>, b: Seq<char>, x: int, y: int)
    requires
        0 <= x <= y <= a.len(),
    ensures
        (a + b).subrange(x, y) == a.subrange(x, y),
{
    assert((a + b).subrange(x, y) =~= a.subrange(x, y));
}

/// Where the pieces before the last one sit, and that they end inside the
/// layout of all strings but the last.
proof fn lemma_piece_bounds(xs: Seq<Seq<char>>, g: Seq<char>, i: int)
    requires
        xs.len() >= 2,
        0 <= i < xs.len() - 1,
    ensures
        piece_start(xs.drop_last(), g, i) == piece_start(xs, g, i),
        xs.drop_last()[i] == xs[i],
        0 <= piece_start(xs, g, i),
        piece_start(xs, g, i) + xs[i].len() <= total_len(xs.drop_last()) + (xs.len() - 2) * g.len(),
        piece_start(xs, g, i + 1) == piece_start(xs, g, i) + xs[i].len() + g.len(),
{
    let n = xs.len() as int;
    let gl = g.len() as int;
    let d = xs.drop_last();
    assert(d.take(i) =~= xs.take(i));
    assert(xs.take(n - 1) =~= d);
    lemma_total_take_step(xs, i);
    lemma_total_take_mono(xs, i + 1, n - 1);
    assert(i * gl <= (n - 2) * gl) by (nonlinear_arith)
        requires
            0 <= i <= n - 2,
            gl >= 0,
    ;
    assert(i * gl >= 0) by (nonlinear_arith)
        requires
            0 <= i,
            gl >= 0,
    ;
    assert((i + 1) * gl == i * gl + gl) by (nonlinear_arith);
}

#[verifier::spinoff_prover]
proof fn lemma_join_laid_out(xs: Seq<Seq<char>>, g: Seq<char>)
    ensures
        laid_out(seq_join(xs, g), xs, g),
    decreases xs.len(),
{
    let n = xs.len() as int;
    let r = seq_join(xs, g);
    if n == 0 {
    } else if n == 1 {
        assert(xs.take(0) =~= Seq::<Seq<char>>::empty());
        assert(xs.drop_last() =~= Seq::<Seq<char>>::empty());
        assert(r.subrange(0, xs[0].len() as int) =~= xs[0]);
    } else {
        let d = xs.drop_last();
        let rd = seq_join(d, g);
        let l = xs.last();
        lemma_join_laid_out(d, g);
        let gl = g.len() as int;
        assert(xs.take(n - 1) =~= d);
        assert((n - 2) * gl + gl == (n - 1) * gl) by (nonlinear_arith);
        assert(r == rd + g + l);
        assert(piece_start(xs, g, n - 1) == rd.len() + gl);
        assert forall|i: int| 0 <= i < n implies r.subrange(
            piece_start(xs, g, i),
            piece_start(xs, g, i) + xs[i].len(),
        ) == #[trigger] xs[i] by {
            if i < n - 1 {
                lemma_piece_bounds(xs, g, i);
                let a = piece_start(xs, g, i);
                assert(rd.subrange(a, a + d[i].len()) == d[i]);
                lemma_subrange_of_front(rd + g, l, a, a + xs[i].len());
                lemma_subrange_of_front(rd, g, a, a + xs[i].len());
            } else {
                assert(r.subrange(rd.len() + gl, rd.len() + gl + l.len()) =~= l);
            }
        }
        assert forall|i: int| 0 <= i < n - 1 implies #[trigger] r.subrange(
            piece_start(xs, g, i) + xs[i].len(),
            piece_start(xs, g, i + 1),
        ) == g by {
            lemma_piece_bounds(xs, g, i);
            let a = piece_start(xs, g, i) + xs[i].len();
            if i < n - 2 {
                lemma_piece_bounds(xs, g, i + 1);
                lemma_piece_bounds(d, g, i);
                assert(rd.subrange(a, a + gl) == g);
                lemma_subrange_of_front(rd + g, l, a, a + gl);
                lemma_subrange_of_front(rd, g, a, a + gl);
            } else {
                lemma_total_take_step(xs, n - 2);
                assert(a == rd.len());
                assert(r.subrange(a, a + gl) =~= g);
            }
        }
    }
}

/// `join` lays out every string of its array argument, empty ones included,
/// in order with the glue between each two (see [`laid_out`]).
pub proof fn law_join_layout(args: Seq<Json>)
    ensures
        join_result(args) matches Ok(Json::Str(r)) ==> laid_out(
            r,
            elems_of(args[1]).map_values(|v: Json| str_of(v)),
            str_of(args[0]),
        ),
{
    lemma_join_laid_out(elems_of(args[1]).map_values(|v: Json| str_of(v)), str_of(args[0]));
}

/// Result `c` is the first best of the results before `upto`: for `max_by`
/// no key is greater than its key and every key before it is less; for
/// `min_by` no key is less and every key before it is greater.
pub open spec fn first_best(rs: Seq<Result<Json, ErrorModel>>, c: int, upto: int, mode: ByMode) -> bool {
    forall|j: int|
        0 <= j < upto ==> match mode {
            ByMode::Greatest => json_order(ok_value(#[trigger] rs[j]), ok_value(rs[c])) != Order::Greater
                && (j < c ==> json_order(ok_value(rs[j]), ok_value(rs[c])) == Order::Less),
            _ => json_order(ok_value(#[trigger] rs[j]), ok_value(rs[c])) != Order::Less && (j < c
                ==> json_order(ok_value(rs[j]), ok_value(rs[c])) == Order::Greater),
        }
}

proof fn lemma_same_type_kind(a: Json, b: Json, c: Json, t: JsonType)
    requires
        t == JsonType::String || t == JsonType::Number,
        type_of(a) == t,
        type_of(b) == t,
        type_of(c) == t,
    ensures
        same_kind(a, b, c),
{
}

#[verifier::spinoff_prover]
proof fn lemma_by_scan_best(
    rs: Seq<Result<Json, ErrorModel>>,
    k: int,
    cand: int,
    entered: JsonType,
    mode: ByMode,
)
    requires
        mode != ByMode::Check,
        entered == JsonType::String || entered == JsonType::Number,
        0 <= cand < k <= rs.len(),
        forall|j: int| 0 <= j < k ==> (#[trigger] rs[j]) is Ok && type_of(ok_value(rs[j])) == entered,
        first_best(rs, cand, k, mode),
    ensures
        by_scan(rs, k, cand, entered, mode) matches Ok(c) ==> 0 <= c < rs.len() && first_best(
            rs,
            c,
            rs.len() as int,
            mode,
        ) && forall|j: int| 0 <= j < rs.len() ==> (#[trigger] rs[j]) is Ok,
    decreases rs.len() - k,
{
    if k < rs.len() {
        if let Ok(m) = rs[k] {
            if type_of(m) == entered {
                let kc = ok_value(rs[cand]);
                let o = json_order(m, kc);
                let better = match mode {
                    ByMode::Greatest => o == Order::Greater,
                    ByMode::Least => o == Order::Less,
                    ByMode::Check => false,
                };
                let next = if better {
                    k
                } else {
                    cand
                };
                assert forall|j: int| 0 <= j < k + 1 implies match mode {
                    ByMode::Greatest => json_order(ok_value(#[trigger] rs[j]), ok_value(rs[next]))
                        != Order::Greater && (j < next ==> json_order(ok_value(rs[j]), ok_value(rs[next]))
                        == Order::Less),
                    _ => json_order(ok_value(#[trigger] rs[j]), ok_value(rs[next])) != Order::Less && (j
                        < next ==> json_order(ok_value(rs[j]), ok_value(rs[next])) == Order::Greater),
                } by {
                    let kj = ok_value(rs[j]);
                    lemma_same_type_kind(kj, kc, m, entered);
                    lemma_same_type_kind(m, kc, kj, entered);
                    lemma_same_type_kind(kc, kj, m, entered);
                    law_json_order_preorder(kj, kc, m);
                    law_json_order_preorder(m, kc, kj);
                    law_json_order_preorder(kc, kj, m);
                    law_json_order_preorder(m, kj, kc);
                    if j < k {
                        assert(match mode {
                            ByMode::Greatest => json_order(ok_value(rs[j]), ok_value(rs[cand])) != Order::Greater
                                && (j < cand ==> json_order(ok_value(rs[j]), ok_value(rs[cand])) == Order::Less),
                            _ => json_order(ok_value(rs[j]), ok_value(rs[cand])) != Order::Less && (j < cand
                                ==> json_order(ok_value(rs[j]), ok_value(rs[cand])) == Order::Greater),
                        });
                    }
                }
                lemma_by_scan_best(rs, k + 1, next, entered, mode);
            }
        }
    }
}

/// What `max_by` returns for a non-empty array is the first element whose
/// key is greatest: every key is not greater than its key, and every key
/// before it is less.
pub proof fn law_max_by_greatest(args: Seq<Json>, rs: Seq<Result<Json, ErrorModel>>)
    requires
        check_args(args, by_signature()) is None ==> results_expected(args, 0, rs.len()),
    ensures
        elems_of(args[0]).len() > 0 ==> (extreme_by_result(args, rs, ByMode::Greatest) matches Ok(v)
            ==> exists|i: int|
            0 <= i < elems_of(args[0]).len() && v == elems_of(args[0])[i] && forall|j: int|
                0 <= j < elems_of(args[0]).len() ==> (#[trigger] rs[j]) is Ok && json_order(
                    ok_value(rs[j]),
                    ok_value(rs[i]),
                ) != Order::Greater && (j < i ==> json_order(ok_value(rs[j]), ok_value(rs[i]))
                    == Order::Less)),
{
    lemma_extreme_by_best(args, rs, ByMode::Greatest);
}

/// What `min_by` returns for a non-empty array is the first element whose
/// key is least: every key is not less than its key, and every key before it
/// is greater.
pub proof fn law_min_by_least(args: Seq<Json>, rs: Seq<Result<Json, ErrorModel>>)
    requires
        check_args(args, by_signature()) is None ==> results_expected(args, 0, rs.len()),
    ensures
        elems_of(args[0]).len() > 0 ==> (extreme_by_result(args, rs, ByMode::Least) matches Ok(v)
            ==> exists|i: int|
            0 <= i < elems_of(args[0]).len() && v == elems_of(args[0])[i] && forall|j: int|
                0 <= j < elems_of(args[0]).len() ==> (#[trigger] rs[j]) is Ok && json_order(
                    ok_value(rs[j]),
                    ok_value(rs[i]),
                ) != Order::Less && (j < i ==> json_order(ok_value(rs[j]), ok_value(rs[i]))
                    == Order::Greater)),
{
    lemma_extreme_by_best(args, rs, ByMode::Least);
}

proof fn lemma_extreme_by_best(args: Seq<Json>, rs: Seq<Result<Json, ErrorModel>>, mode: ByMode)
    requires
        mode != ByMode::Check,
        check_args(args, by_signature()) is None ==> results_expected(args, 0, rs.len()),
    ensures
        elems_of(args[0]).len() > 0 ==> (extreme_by_result(args, rs, mode) matches Ok(v)
            ==> exists|i: int|
            0 <= i < elems_of(args[0]).len() && v == elems_of(args[0])[i] && (forall|j: int|
                0 <= j < elems_of(args[0]).len() ==> (#[trigger] rs[j]) is Ok) && first_best(
                rs,
                i,
                rs.len() as int,
                mode,
            )),
{
    let vals = elems_of(args[0]);
    if vals.len() > 0 && check_args(args, by_signature()) is None {
        if let Ok(m) = rs[0] {
            if type_of(m) == JsonType::String || type_of(m) == JsonType::Number {
                let t = type_of(m);
                assert(first_best(rs, 0, 1, mode)) by {
                    lemma_same_type_kind(m, m, m, t);
                    law_json_order_preorder(m, m, m);
                }
                lemma_by_scan_best(rs, 1, 0, t, mode);
                if let Ok(c) = by_scan(rs, 1, 0, t, mode) {
                    assert(vals[c] == vals[c]);
                }
            }
        }
    }
}

/// `starts_with` of two strings is true exactly when the first is the
/// second followed by some string, and `ends_with` exactly when it is some
/// string followed by the second.
pub proof fn law_starts_ends_with(s: Seq<char>, p: Seq<char>)
    ensures
        starts_with_result(seq![Json::Str(s), Json::Str(p)]) == Ok::<Json, ErrorModel>(
            Json::Bool(exists|q: Seq<char>| #[trigger] (p + q) == s),
        ),
        ends_with_result(seq![Json::Str(s), Json::Str(p)]) == Ok::<Json, ErrorModel>(
            Json::Bool(exists|q: Seq<char>| #[trigger] (q + p) == s),
        ),
{
    let args = seq![Json::Str(s), Json::Str(p)];
    law_validation_accepts(args, two_strings_signature());
    assert(accepts(two_strings_signature()[0], args[0]));
    assert(accepts(two_strings_signature()[1], args[1]));
    if is_prefix(p, s) {
        assert(p + s.subrange(p.len() as int, s.len() as int) =~= s);
    }
    if exists|q: Seq<char>| #[trigger] (p + q) == s {
        let q = choose|q: Seq<char>| #[trigger] (p + q) == s;
        assert(s.subrange(0, p.len() as int) =~= p);
    }
    if is_suffix(p, s) {
        assert(s.subrange(0, s.len() - p.len()) + p =~= s);
    }
    if exists|q: Seq<char>| #[trigger] (q + p) == s {
        let q = choose|q: Seq<char>| #[trigger] (q + p) == s;
        assert(s.subrange(s.len() - p.len(), s.len() as int) =~= p);
    }
}

/// Integer numbers, of either integer type, are ordered as integers.
pub proof fn law_integer_order(x: Json, y: Json)
    requires
        x is I64 || x is U64,
        y is I64 || y is U64,
    ensures
        json_order(x, y) == (if num_mantissa(x) < num_mantissa(y) {
            Order::Less
        } else if num_mantissa(x) == num_mantissa(y) {
            Order::Equal
        } else {
            Order::Greater
        }),
        num_mantissa(x) == match x {
            Json::I64(a) => a as int,
            Json::U64(a) => a as int,
            _ => 0,
        },
        num_mantissa(y) == match y {
            Json::I64(b) => b as int,
            Json::U64(b) => b as int,
            _ => 0,
        },
{
    lemma2_to64();
    assert(pow2(0) == 1);
    assert(num_exponent(x) == 0 && num_exponent(y) == 0);
    let a = num_mantissa(x);
    let b = num_mantissa(y);
    assert(a * pow2(0) == a) by (nonlinear_arith)
        requires
            pow2(0) == 1,
    ;
    assert(b * pow2(0) == b) by (nonlinear_arith)
        requires
            pow2(0) == 1,
    ;
    assert(scaled(a, 0, 0) == a);
    assert(scaled(b, 0, 0) == b);
}

} // verus!
