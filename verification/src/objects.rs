//! Objects as members in increasing key order, and the `merge` function.

use vstd::prelude::*;
use crate::argument::{ArgumentType, ArgSpec, arg_views, lemma_arg_views};
use crate::error::{ErrorModel, SearchResult, result_view};
use crate::functions::{guarded, members_of};
use crate::text::{Order, text_order, compare_strings, same_string, copy_string};
use crate::validate::{check_variadic_args, validate_variadic_args};
use crate::variable::{Variable, Json, views, lemma_views, entry_views, lemma_entry_views};

verus! {

/// The members of an object.
pub type Members = Seq<(Seq<char>, Json)>;

/// The position at which key `k` belongs among members in increasing key
/// order: the first member whose key is not less than `k`.
pub open spec fn insert_pos(es: Members, k: Seq<char>) -> int
    decreases es.len(),
{
    if es.len() == 0 {
        0
    } else if text_order(es[0].0, k) == Order::Less {
        1 + insert_pos(es.drop_first(), k)
    } else {
        0
    }
}

/// Members in increasing key order with the member `(k, v)` put in: it
/// replaces a member with key `k`, or goes where its key belongs.
pub open spec fn insert_member(es: Members, k: Seq<char>, v: Json) -> Members {
    let p = insert_pos(es, k);
    if p < es.len() && es[p].0 == k {
        es.update(p, (k, v))
    } else {
        es.insert(p, (k, v))
    }
}

/// `acc` with the members `ms` put in one after another.
pub open spec fn insert_all(acc: Members, ms: Members) -> Members
    decreases ms.len(),
{
    if ms.len() == 0 {
        acc
    } else {
        insert_all(insert_member(acc, ms[0].0, ms[0].1), ms.drop_first())
    }
}

/// The members of the objects `objs` put, one object after another, into an
/// empty object: a later member replaces an earlier one with the same key.
pub open spec fn merge_members(objs: Seq<Json>) -> Members
    decreases objs.len(),
{
    if objs.len() == 0 {
        Seq::empty()
    } else {
        insert_all(merge_members(objs.drop_last()), members_of(objs.last()))
    }
}

/// What `merge` returns.
pub open spec fn merge_result(args: Seq<Json>) -> Result<Json, ErrorModel> {
    guarded(
        check_variadic_args(args, seq![ArgSpec::Object], ArgSpec::Object),
        Json::Obj(merge_members(args)),
    )
}

proof fn lemma_insert_pos_skip(es: Members, k: Seq<char>, i: int)
    requires
        0 <= i <= es.len(),
        forall|j: int| 0 <= j < i ==> text_order(#[trigger] es[j].0, k) == Order::Less,
    ensures
        insert_pos(es, k) == i + insert_pos(es.skip(i), k),
    decreases i,
{
    if i > 0 {
        assert forall|j: int| 0 <= j < i - 1 implies text_order(
            #[trigger] es.drop_first()[j].0,
            k,
        ) == Order::Less by {
            assert(es.drop_first()[j] == es[j + 1]);
        }
        lemma_insert_pos_skip(es.drop_first(), k, i - 1);
        assert(es.drop_first().skip(i - 1) =~= es.skip(i));
    } else {
        assert(es.skip(0) =~= es);
    }
}

/// Puts the member `(k, v)` into members kept in increasing key order.
pub fn insert_into(es: &mut Vec<(String, Variable)>, k: String, v: Variable)
    ensures
        entry_views(final(es)@) == insert_member(entry_views(old(es)@), k@, v@),
{
    let ghost e0 = entry_views(es@);
    proof {
        lemma_entry_views(es@);
    }
    let mut i: usize = 0;
    while i < es.len()
        invariant
            i <= es.len(),
            e0 == entry_views(es@),
            e0.len() == es.len(),
            forall|j: int| 0 <= j < es.len() ==> #[trigger] e0[j] == (es@[j].0@, es@[j].1@),
            forall|j: int| 0 <= j < i ==> text_order(#[trigger] e0[j].0, k@) == Order::Less,
        ensures
            i <= es.len(),
            i < es.len() ==> text_order(e0[i as int].0, k@) != Order::Less,
        decreases es.len() - i,
    {
        if compare_strings(&es[i].0, &k) != Order::Less {
            break;
        }
        i = i + 1;
    }
    proof {
        lemma_insert_pos_skip(e0, k@, i as int);
        if i < es.len() {
            assert(e0.skip(i as int)[0] == e0[i as int]);
        } else {
            assert(e0.skip(i as int).len() == 0);
        }
        assert(insert_pos(e0.skip(i as int), k@) == 0);
        assert(insert_pos(e0, k@) == i);
    }
    let ghost kv = k@;
    let ghost vv = v@;
    if i < es.len() && same_string(&es[i].0, &k) {
        es.set(i, (k, v));
        proof {
            lemma_entry_views(es@);
            assert(entry_views(es@) =~= e0.update(i as int, (kv, vv)));
        }
    } else {
        es.insert(i, (k, v));
        proof {
            lemma_entry_views(es@);
            assert(entry_views(es@) =~= e0.insert(i as int, (kv, vv)));
        }
    }
}

/// `merge(object, ...)`: one object holding the members of all arguments; for a
/// key that several arguments hold, the value of the last of them.
pub fn merge(args: Vec<Variable>) -> (r: SearchResult)
    ensures
        result_view(r) == merge_result(views(args@)),
{
    let types = vec![ArgumentType::Object];
    proof {
        lemma_arg_views(types@);
        assert(arg_views(types@) =~= seq![ArgSpec::Object]);
        lemma_views(args@);
    }
    validate_variadic_args(&args, &types, &ArgumentType::Object)?;
    let ghost all = views(args@);
    let mut result: Vec<(String, Variable)> = Vec::new();
    let mut a: usize = 0;
    proof {
        assert(all.take(0) =~= Seq::<Json>::empty());
        lemma_entry_views(result@);
        assert(entry_views(result@) =~= merge_members(all.take(0)));
    }
    while a < args.len()
        invariant
            a <= args.len(),
            all == views(args@),
            all.len() == args.len(),
            forall|j: int| 0 <= j < args.len() ==> #[trigger] all[j] == args@[j]@,
            entry_views(result@) == merge_members(all.take(a as int)),
        decreases args.len() - a,
    {
        let ghost before = entry_views(result@);
        assert(all.take(a + 1).drop_last() =~= all.take(a as int));
        assert(all.take(a + 1).last() == all[a as int]);
        match &args[a] {
            Variable::Object(es) => {
                let ghost ms = entry_views(es@);
                proof {
                    lemma_entry_views(es@);
                    assert(ms.skip(0) =~= ms);
                }
                let mut m: usize = 0;
                while m < es.len()
                    invariant
                        m <= es.len(),
                        ms == entry_views(es@),
                        ms.len() == es.len(),
                        forall|j: int| 0 <= j < es.len() ==> #[trigger] ms[j] == (es@[j].0@, es@[j].1@),
                        insert_all(before, ms) == insert_all(entry_views(result@), ms.skip(m as int)),
                    decreases es.len() - m,
                {
                    assert(ms.skip(m as int)[0] == ms[m as int]);
                    assert(ms.skip(m as int).drop_first() =~= ms.skip(m + 1));
                    let k = copy_string(&es[m].0);
                    let v = es[m].1.deep_clone();
                    insert_into(&mut result, k, v);
                    m = m + 1;
                }
                assert(ms.skip(m as int) =~= Seq::<(Seq<char>, Json)>::empty());
            },
            _ => {
                assert(members_of(all[a as int]) =~= Seq::<(Seq<char>, Json)>::empty());
            },
        }
        a = a + 1;
    }
    assert(all.take(args.len() as int) =~= all);
    proof {
        lemma_entry_views(result@);
    }
    Ok(Variable::Object(result))
}

} // verus!
