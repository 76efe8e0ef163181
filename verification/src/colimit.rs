//! Pushouts (colimits) of theories.
use vstd::prelude::*;
use vstd::string::*;

use crate::alpha::{alpha_equiv_equation, alpha_equivalent_equation};
use crate::eq::{DirectedEquation, Equation, SDirectedEquation, SEquation};
use crate::error::{GatError, SGatError};
use crate::op::{Operation, SOperation};
use crate::sort::{SSort, Sort, params_eq, signatures_equivalent, signatures_equivalent_modulo_param_rename};
use crate::pushout::{first_missing, identity_inclusion, missing_error, name_inclusion_error};
use crate::schema_functor::{model_op_names, model_sort_names};
use crate::theory::{
    ConflictPolicy,
    SPolicy,
    STheory,
    Theory,
    directed_eq_names,
    eq_names,
    first_named,
    op_names,
    policy_names,
    sort_names,
};

verus! {

/// The models of a list of values.
pub open spec fn views<T: View>(v: Seq<T>) -> Seq<T::V> {
    Seq::new(v.len(), |i: int| v[i]@)
}

/// Merge the named items of `extra` from position `i` on into `base`: an
/// item whose name `base` lacks is appended; an item whose name `base`
/// has is dropped when `skip` holds of the name or the first such item of
/// `base` is compatible with it, and is a conflict (`Err` of its name)
/// otherwise. The appended items, or the first conflict.
pub open spec fn merge_named<V>(
    base: Seq<V>,
    extra: Seq<V>,
    name: spec_fn(V) -> Seq<char>,
    skip: spec_fn(Seq<char>) -> bool,
    compat: spec_fn(V, V) -> bool,
    i: int,
) -> Result<Seq<V>, Seq<char>>
    decreases (if 0 <= i < extra.len() { extra.len() - i } else { 0 }) as nat,
{
    if 0 <= i < extra.len() {
        let x = extra[i];
        let n = name(x);
        let rest = merge_named(base, extra, name, skip, compat, i + 1);
        match first_named(Seq::new(base.len(), |j: int| name(base[j])), n) {
            Some(k) => if skip(n) || compat(base[k], x) {
                rest
            } else {
                Err(n)
            },
            None => match rest {
                Ok(r) => Ok(seq![x] + r),
                Err(e) => Err(e),
            },
        }
    } else {
        Ok(Seq::empty())
    }
}

/// The name of a sort model.
pub open spec fn sort_name_of() -> spec_fn(SSort) -> Seq<char> {
    |s: SSort| s.name
}

/// Two sort declarations agree on parameters and kind.
pub open spec fn sort_compat() -> spec_fn(SSort, SSort) -> bool {
    |a: SSort, b: SSort| a.params == b.params && a.kind == b.kind
}

/// The name of an operation model.
pub open spec fn op_name_of() -> spec_fn(SOperation) -> Seq<char> {
    |o: SOperation| o.name
}

/// Two operation declarations have equivalent signatures.
pub open spec fn op_compat() -> spec_fn(SOperation, SOperation) -> bool {
    |a: SOperation, b: SOperation| signatures_equivalent(a.inputs, a.output, b.inputs, b.output)
}

/// The name of an equation model.
pub open spec fn eq_name_of() -> spec_fn(SEquation) -> Seq<char> {
    |e: SEquation| e.name
}

/// Two equations are alpha-equivalent.
pub open spec fn eq_compat() -> spec_fn(SEquation, SEquation) -> bool {
    |a: SEquation, b: SEquation| alpha_equiv_equation(a.lhs, a.rhs, b.lhs, b.rhs)
}

/// The name of a directed equation model.
pub open spec fn rule_name_of() -> spec_fn(SDirectedEquation) -> Seq<char> {
    |e: SDirectedEquation| e.name
}

/// Two directed equations are alpha-equivalent.
pub open spec fn rule_compat() -> spec_fn(SDirectedEquation, SDirectedEquation) -> bool {
    |a: SDirectedEquation, b: SDirectedEquation| alpha_equiv_equation(a.lhs, a.rhs, b.lhs, b.rhs)
}

/// The name of a policy model.
pub open spec fn policy_name_of() -> spec_fn(SPolicy) -> Seq<char> {
    |p: SPolicy| p.name
}

/// Two policies agree on value kind and strategy.
pub open spec fn policy_compat() -> spec_fn(SPolicy, SPolicy) -> bool {
    |a: SPolicy, b: SPolicy| a.value_kind == b.value_kind && a.strategy == b.strategy
}

/// Names of sorts declared by `t`.
pub open spec fn has_sort_named(t: Theory) -> spec_fn(Seq<char>) -> bool {
    |n: Seq<char>| first_named(sort_names(t.sorts@), n) is Some
}

/// Names of operations declared by `t`.
pub open spec fn has_op_named(t: Theory) -> spec_fn(Seq<char>) -> bool {
    |n: Seq<char>| first_named(op_names(t.ops@), n) is Some
}

/// Nothing is skipped.
pub open spec fn skip_none() -> spec_fn(Seq<char>) -> bool {
    |n: Seq<char>| false
}

#[verifier::rlimit(60)]
proof fn lemma_views_push<T: View>(s: Seq<T>, x: T)
    ensures
        views(s.push(x)) == views(s).push(x@),
{
    assert(views(s.push(x)) =~= views(s).push(x@));
}

fn merge_sorts_named(t1: &Theory, t2: &Theory, shared: &Theory) -> (r: Result<Vec<Sort>, String>)
    ensures
        match r {
            Ok(v) => merge_named(views(t1.sorts@), views(t2.sorts@), sort_name_of(), has_sort_named(*shared), sort_compat(), 0) matches Ok(x)
                && views(v@) == views(t1.sorts@) + x,
            Err(n) => merge_named(views(t1.sorts@), views(t2.sorts@), sort_name_of(), has_sort_named(*shared), sort_compat(), 0) == Err::<Seq<SSort>, Seq<char>>(n@),
        },
{
    let ghost b = views(t1.sorts@);
    let ghost e = views(t2.sorts@);
    let ghost target = merge_named(b, e, sort_name_of(), has_sort_named(*shared), sort_compat(), 0);
    proof {
        assert(Seq::new(b.len(), |j: int| sort_name_of()(b[j])) =~= sort_names(t1.sorts@));
    }
    let mut v: Vec<Sort> = Vec::new();
    let mut i: usize = 0;
    while i < t1.sorts.len()
        invariant
            i <= t1.sorts@.len(),
            v@.len() == i,
            forall|j: int| 0 <= j < i ==> #[trigger] v@[j]@ == t1.sorts@[j]@,
        decreases t1.sorts@.len() - i,
    {
        v.push(t1.sorts[i].copy());
        i = i + 1;
    }
    proof {
        assert(views(v@) =~= views(t1.sorts@));
    }
    let ghost mut collected: Seq<SSort> = Seq::empty();
    let mut i: usize = 0;
    while i < t2.sorts.len()
        invariant
            b == views(t1.sorts@),
            e == views(t2.sorts@),
            Seq::new(b.len(), |j: int| sort_name_of()(b[j])) == sort_names(t1.sorts@),
            target == merge_named(b, e, sort_name_of(), has_sort_named(*shared), sort_compat(), 0),
            i <= t2.sorts@.len(),
            views(v@) == b + collected,
            target == match merge_named(b, e, sort_name_of(), has_sort_named(*shared), sort_compat(), i as int) {
                Ok(r) => Ok(collected + r),
                Err(x) => Err(x),
            },
        decreases t2.sorts@.len() - i,
    {
        let s = &t2.sorts[i];
        proof {
            assert(e[i as int] == s@);
        }
        let ghost rest = merge_named(b, e, sort_name_of(), has_sort_named(*shared), sort_compat(), i + 1);
        match t1.find_sort(s.name.as_str()) {
            Some(t1s) => {
                proof {
                    let k = first_named(sort_names(t1.sorts@), s.name@)->0;
                    crate::theory::lemma_first_named(sort_names(t1.sorts@), s.name@);
                    assert(b[k] == t1s@);
                    assert(sort_name_of()(e[i as int]) == s.name@);
                    assert(merge_named(b, e, sort_name_of(), has_sort_named(*shared), sort_compat(), i as int) == if has_sort_named(*shared)(s.name@) || sort_compat()(b[k], e[i as int]) {
                        rest
                    } else {
                        Err(s.name@)
                    });
                }
                if !shared.has_sort(s.name.as_str()) {
                    if !params_eq(&t1s.params, &s.params) || t1s.kind != s.kind {
                        return Err(s.name.clone());
                    }
                }
            },
            None => {
                let ghost old_v = v@;
                v.push(s.copy());
                proof {
                    let old_c = collected;
                    collected = collected.push(s@);
                    lemma_views_push(old_v, v@.last());
                    assert(v@ == old_v.push(v@.last()));
                    assert(views(v@) =~= b + collected);
                    match rest {
                        Ok(r) => {
                            assert(old_c + (seq![s@] + r) =~= collected + r);
                        },
                        Err(x) => {},
                    }
                }
            },
        }
        i = i + 1;
    }
    proof {
        assert(collected + Seq::<SSort>::empty() =~= collected);
    }
    Ok(v)
}

#[verifier::rlimit(60)]
fn merge_ops_named(t1: &Theory, t2: &Theory, shared: &Theory) -> (r: Result<Vec<Operation>, String>)
    ensures
        match r {
            Ok(v) => merge_named(views(t1.ops@), views(t2.ops@), op_name_of(), has_op_named(*shared), op_compat(), 0) matches Ok(x)
                && views(v@) == views(t1.ops@) + x,
            Err(n) => merge_named(views(t1.ops@), views(t2.ops@), op_name_of(), has_op_named(*shared), op_compat(), 0) == Err::<Seq<SOperation>, Seq<char>>(n@),
        },
{
    let ghost b = views(t1.ops@);
    let ghost e = views(t2.ops@);
    let ghost target = merge_named(b, e, op_name_of(), has_op_named(*shared), op_compat(), 0);
    proof {
        assert(Seq::new(b.len(), |j: int| op_name_of()(b[j])) =~= op_names(t1.ops@));
    }
    let mut v: Vec<Operation> = Vec::new();
    let mut i: usize = 0;
    while i < t1.ops.len()
        invariant
            i <= t1.ops@.len(),
            v@.len() == i,
            forall|j: int| 0 <= j < i ==> #[trigger] v@[j]@ == t1.ops@[j]@,
        decreases t1.ops@.len() - i,
    {
        v.push(t1.ops[i].copy());
        i = i + 1;
    }
    proof {
        assert(views(v@) =~= views(t1.ops@));
    }
    let ghost mut collected: Seq<SOperation> = Seq::empty();
    let mut i: usize = 0;
    while i < t2.ops.len()
        invariant
            b == views(t1.ops@),
            e == views(t2.ops@),
            Seq::new(b.len(), |j: int| op_name_of()(b[j])) == op_names(t1.ops@),
            target == merge_named(b, e, op_name_of(), has_op_named(*shared), op_compat(), 0),
            i <= t2.ops@.len(),
            views(v@) == b + collected,
            target == match merge_named(b, e, op_name_of(), has_op_named(*shared), op_compat(), i as int) {
                Ok(r) => Ok(collected + r),
                Err(x) => Err(x),
            },
        decreases t2.ops@.len() - i,
    {
        let o = &t2.ops[i];
        proof {
            assert(e[i as int] == o@);
        }
        let ghost rest = merge_named(b, e, op_name_of(), has_op_named(*shared), op_compat(), i + 1);
        match t1.find_op(o.name.as_str()) {
            Some(t1o) => {
                proof {
                    let k = first_named(op_names(t1.ops@), o.name@)->0;
                    crate::theory::lemma_first_named(op_names(t1.ops@), o.name@);
                    assert(b[k] == t1o@);
                    assert(op_name_of()(e[i as int]) == o.name@);
                    assert(merge_named(b, e, op_name_of(), has_op_named(*shared), op_compat(), i as int) == if has_op_named(*shared)(o.name@) || op_compat()(b[k], e[i as int]) {
                        rest
                    } else {
                        Err(o.name@)
                    });
                }
                if !shared.has_op(o.name.as_str()) {
                    if !signatures_equivalent_modulo_param_rename(&t1o.inputs, &t1o.output, &o.inputs, &o.output) {
                        return Err(o.name.clone());
                    }
                }
            },
            None => {
                let ghost old_v = v@;
                v.push(o.copy());
                proof {
                    let old_c = collected;
                    collected = collected.push(o@);
                    lemma_views_push(old_v, v@.last());
                    assert(v@ == old_v.push(v@.last()));
                    assert(views(v@) =~= b + collected);
                    match rest {
                        Ok(r) => {
                            assert(old_c + (seq![o@] + r) =~= collected + r);
                        },
                        Err(x) => {},
                    }
                }
            },
        }
        i = i + 1;
    }
    proof {
        assert(collected + Seq::<SOperation>::empty() =~= collected);
    }
    Ok(v)
}

#[verifier::rlimit(60)]
fn merge_eqs_named(t1: &Theory, t2: &Theory) -> (r: Result<Vec<Equation>, String>)
    ensures
        match r {
            Ok(v) => merge_named(views(t1.eqs@), views(t2.eqs@), eq_name_of(), skip_none(), eq_compat(), 0) matches Ok(x)
                && views(v@) == views(t1.eqs@) + x,
            Err(n) => merge_named(views(t1.eqs@), views(t2.eqs@), eq_name_of(), skip_none(), eq_compat(), 0) == Err::<Seq<SEquation>, Seq<char>>(n@),
        },
{
    let ghost b = views(t1.eqs@);
    let ghost e = views(t2.eqs@);
    let ghost target = merge_named(b, e, eq_name_of(), skip_none(), eq_compat(), 0);
    proof {
        assert(Seq::new(b.len(), |j: int| eq_name_of()(b[j])) =~= eq_names(t1.eqs@));
    }
    let mut v: Vec<Equation> = Vec::new();
    let mut i: usize = 0;
    while i < t1.eqs.len()
        invariant
            i <= t1.eqs@.len(),
            v@.len() == i,
            forall|j: int| 0 <= j < i ==> #[trigger] v@[j]@ == t1.eqs@[j]@,
        decreases t1.eqs@.len() - i,
    {
        v.push(t1.eqs[i].copy());
        i = i + 1;
    }
    proof {
        assert(views(v@) =~= views(t1.eqs@));
    }
    let ghost mut collected: Seq<SEquation> = Seq::empty();
    let mut i: usize = 0;
    while i < t2.eqs.len()
        invariant
            b == views(t1.eqs@),
            e == views(t2.eqs@),
            Seq::new(b.len(), |j: int| eq_name_of()(b[j])) == eq_names(t1.eqs@),
            target == merge_named(b, e, eq_name_of(), skip_none(), eq_compat(), 0),
            i <= t2.eqs@.len(),
            views(v@) == b + collected,
            target == match merge_named(b, e, eq_name_of(), skip_none(), eq_compat(), i as int) {
                Ok(r) => Ok(collected + r),
                Err(x) => Err(x),
            },
        decreases t2.eqs@.len() - i,
    {
        let q = &t2.eqs[i];
        proof {
            assert(e[i as int] == q@);
        }
        let ghost rest = merge_named(b, e, eq_name_of(), skip_none(), eq_compat(), i + 1);
        match t1.find_eq(q.name.as_str()) {
            Some(t1q) => {
                proof {
                    let k = first_named(eq_names(t1.eqs@), q.name@)->0;
                    crate::theory::lemma_first_named(eq_names(t1.eqs@), q.name@);
                    assert(b[k] == t1q@);
                    assert(eq_name_of()(e[i as int]) == q.name@);
                    assert(merge_named(b, e, eq_name_of(), skip_none(), eq_compat(), i as int) == if skip_none()(q.name@) || eq_compat()(b[k], e[i as int]) {
                        rest
                    } else {
                        Err(q.name@)
                    });
                }
                if !alpha_equivalent_equation(&t1q.lhs, &t1q.rhs, &q.lhs, &q.rhs) {
                    return Err(q.name.clone());
                }
            },
            None => {
                let ghost old_v = v@;
                v.push(q.copy());
                proof {
                    let old_c = collected;
                    collected = collected.push(q@);
                    lemma_views_push(old_v, v@.last());
                    assert(v@ == old_v.push(v@.last()));
                    assert(views(v@) =~= b + collected);
                    match rest {
                        Ok(r) => {
                            assert(old_c + (seq![q@] + r) =~= collected + r);
                        },
                        Err(x) => {},
                    }
                }
            },
        }
        i = i + 1;
    }
    proof {
        assert(collected + Seq::<SEquation>::empty() =~= collected);
    }
    Ok(v)
}

#[verifier::rlimit(60)]
fn merge_rules_named(t1: &Theory, t2: &Theory) -> (r: Result<Vec<DirectedEquation>, String>)
    ensures
        match r {
            Ok(v) => merge_named(views(t1.directed_eqs@), views(t2.directed_eqs@), rule_name_of(), skip_none(), rule_compat(), 0) matches Ok(x)
                && views(v@) == views(t1.directed_eqs@) + x,
            Err(n) => merge_named(views(t1.directed_eqs@), views(t2.directed_eqs@), rule_name_of(), skip_none(), rule_compat(), 0) == Err::<Seq<SDirectedEquation>, Seq<char>>(n@),
        },
{
    let ghost b = views(t1.directed_eqs@);
    let ghost e = views(t2.directed_eqs@);
    let ghost target = merge_named(b, e, rule_name_of(), skip_none(), rule_compat(), 0);
    proof {
        assert(Seq::new(b.len(), |j: int| rule_name_of()(b[j])) =~= directed_eq_names(t1.directed_eqs@));
    }
    let mut v: Vec<DirectedEquation> = Vec::new();
    let mut i: usize = 0;
    while i < t1.directed_eqs.len()
        invariant
            i <= t1.directed_eqs@.len(),
            v@.len() == i,
            forall|j: int| 0 <= j < i ==> #[trigger] v@[j]@ == t1.directed_eqs@[j]@,
        decreases t1.directed_eqs@.len() - i,
    {
        v.push(t1.directed_eqs[i].copy());
        i = i + 1;
    }
    proof {
        assert(views(v@) =~= views(t1.directed_eqs@));
    }
    let ghost mut collected: Seq<SDirectedEquation> = Seq::empty();
    let mut i: usize = 0;
    while i < t2.directed_eqs.len()
        invariant
            b == views(t1.directed_eqs@),
            e == views(t2.directed_eqs@),
            Seq::new(b.len(), |j: int| rule_name_of()(b[j])) == directed_eq_names(t1.directed_eqs@),
            target == merge_named(b, e, rule_name_of(), skip_none(), rule_compat(), 0),
            i <= t2.directed_eqs@.len(),
            views(v@) == b + collected,
            target == match merge_named(b, e, rule_name_of(), skip_none(), rule_compat(), i as int) {
                Ok(r) => Ok(collected + r),
                Err(x) => Err(x),
            },
        decreases t2.directed_eqs@.len() - i,
    {
        let q = &t2.directed_eqs[i];
        proof {
            assert(e[i as int] == q@);
        }
        let ghost rest = merge_named(b, e, rule_name_of(), skip_none(), rule_compat(), i + 1);
        match t1.find_directed_eq(q.name.as_str()) {
            Some(t1q) => {
                proof {
                    let k = first_named(directed_eq_names(t1.directed_eqs@), q.name@)->0;
                    crate::theory::lemma_first_named(directed_eq_names(t1.directed_eqs@), q.name@);
                    assert(b[k] == t1q@);
                    assert(rule_name_of()(e[i as int]) == q.name@);
                    assert(merge_named(b, e, rule_name_of(), skip_none(), rule_compat(), i as int) == if skip_none()(q.name@) || rule_compat()(b[k], e[i as int]) {
                        rest
                    } else {
                        Err(q.name@)
                    });
                }
                if !alpha_equivalent_equation(&t1q.lhs, &t1q.rhs, &q.lhs, &q.rhs) {
                    return Err(q.name.clone());
                }
            },
            None => {
                let ghost old_v = v@;
                v.push(q.copy());
                proof {
                    let old_c = collected;
                    collected = collected.push(q@);
                    lemma_views_push(old_v, v@.last());
                    assert(v@ == old_v.push(v@.last()));
                    assert(views(v@) =~= b + collected);
                    match rest {
                        Ok(r) => {
                            assert(old_c + (seq![q@] + r) =~= collected + r);
                        },
                        Err(x) => {},
                    }
                }
            },
        }
        i = i + 1;
    }
    proof {
        assert(collected + Seq::<SDirectedEquation>::empty() =~= collected);
    }
    Ok(v)
}

#[verifier::rlimit(60)]
fn merge_policies_named(t1: &Theory, t2: &Theory) -> (r: Result<Vec<ConflictPolicy>, String>)
    ensures
        match r {
            Ok(v) => merge_named(views(t1.policies@), views(t2.policies@), policy_name_of(), skip_none(), policy_compat(), 0) matches Ok(x)
                && views(v@) == views(t1.policies@) + x,
            Err(n) => merge_named(views(t1.policies@), views(t2.policies@), policy_name_of(), skip_none(), policy_compat(), 0) == Err::<Seq<SPolicy>, Seq<char>>(n@),
        },
{
    let ghost b = views(t1.policies@);
    let ghost e = views(t2.policies@);
    let ghost sk = skip_none();
    let ghost target = merge_named(b, e, policy_name_of(), sk, policy_compat(), 0);
    proof {
        assert(Seq::new(b.len(), |j: int| policy_name_of()(b[j])) =~= policy_names(t1.policies@));
    }
    let mut v: Vec<ConflictPolicy> = Vec::new();
    let mut i: usize = 0;
    while i < t1.policies.len()
        invariant
            i <= t1.policies@.len(),
            v@.len() == i,
            forall|j: int| 0 <= j < i ==> #[trigger] v@[j]@ == t1.policies@[j]@,
        decreases t1.policies@.len() - i,
    {
        v.push(t1.policies[i].copy());
        i = i + 1;
    }
    proof {
        assert(views(v@) =~= views(t1.policies@));
    }
    let ghost mut collected: Seq<SPolicy> = Seq::empty();
    let mut i: usize = 0;
    while i < t2.policies.len()
        invariant
            b == views(t1.policies@),
            e == views(t2.policies@),
            sk == skip_none(),
            Seq::new(b.len(), |j: int| policy_name_of()(b[j])) == policy_names(t1.policies@),
            target == merge_named(b, e, policy_name_of(), sk, policy_compat(), 0),
            i <= t2.policies@.len(),
            views(v@) == b + collected,
            target == match merge_named(b, e, policy_name_of(), sk, policy_compat(), i as int) {
                Ok(r) => Ok(collected + r),
                Err(x) => Err(x),
            },
        decreases t2.policies@.len() - i,
    {
        let q = &t2.policies[i];
        proof {
            assert(e[i as int] == q@);
        }
        let ghost rest = merge_named(b, e, policy_name_of(), sk, policy_compat(), i + 1);
        match t1.find_policy(q.name.as_str()) {
            Some(t1q) => {
                proof {
                    let k = first_named(policy_names(t1.policies@), q.name@)->0;
                    crate::theory::lemma_first_named(policy_names(t1.policies@), q.name@);
                    assert(b[k] == t1q@);
                    assert(policy_name_of()(e[i as int]) == q.name@);
                    assert(merge_named(b, e, policy_name_of(), sk, policy_compat(), i as int) == if sk(q.name@) || policy_compat()(b[k], e[i as int]) {
                        rest
                    } else {
                        Err(q.name@)
                    });
                }
                if t1q.value_kind != q.value_kind || t1q.strategy != q.strategy {
                    return Err(q.name.clone());
                }
            },
            None => {
                let ghost old_v = v@;
                v.push(q.copy());
                proof {
                    let old_c = collected;
                    collected = collected.push(q@);
                    lemma_views_push(old_v, v@.last());
                    assert(v@ == old_v.push(v@.last()));
                    assert(views(v@) =~= b + collected);
                    match rest {
                        Ok(r) => {
                            assert(old_c + (seq![q@] + r) =~= collected + r);
                        },
                        Err(x) => {},
                    }
                }
            },
        }
        i = i + 1;
    }
    proof {
        assert(collected + Seq::<SPolicy>::empty() =~= collected);
    }
    Ok(v)
}

/// The name of the pushout of two theories: `T1_T2_colimit`.
pub open spec fn colimit_name(t1: Seq<char>, t2: Seq<char>) -> Seq<char> {
    t1 + "_"@ + t2 + "_colimit"@
}

/// The pushout of two theories over a shared theory, by names, as
/// [`crate::pushout::pushout_by_name`] computes it: every shared sort and
/// operation must be declared by `t1` (checked first) and by `t2`; then
/// each component list of `t1`, followed by the items of `t2` whose names
/// `t1` lacks. A sort or operation of `t2` whose name `t1` also has is
/// identified with it when `shared` declares the name or the two agree
/// (sorts: parameters and kind; operations: signatures up to parameter
/// renaming); an equation, directed equation or policy of `t2` whose name
/// `t1` also has must agree with it (alpha-equivalence; kind and
/// strategy). The first conflict is reported, checking sorts, then
/// operations, equations, directed equations and policies.
pub open spec fn colimit_by_name_spec(t1: Theory, t2: Theory, shared: Theory) -> Result<(Seq<SSort>, Seq<SOperation>, Seq<SEquation>, Seq<SDirectedEquation>, Seq<SPolicy>), SGatError> {
    match name_inclusion_error(shared, t1, "i1"@) {
        Some(e) => Err(e),
        None => match name_inclusion_error(shared, t2, "i2"@) {
            Some(e) => Err(e),
            None => match merge_named(views(t1.sorts@), views(t2.sorts@), sort_name_of(), has_sort_named(shared), sort_compat(), 0) {
                Err(n) => Err(SGatError::SortConflict { name: n }),
                Ok(s) => match merge_named(views(t1.ops@), views(t2.ops@), op_name_of(), has_op_named(shared), op_compat(), 0) {
                    Err(n) => Err(SGatError::OpConflict { name: n }),
                    Ok(o) => match merge_named(views(t1.eqs@), views(t2.eqs@), eq_name_of(), skip_none(), eq_compat(), 0) {
                        Err(n) => Err(SGatError::EqConflict { name: n }),
                        Ok(e) => match merge_named(views(t1.directed_eqs@), views(t2.directed_eqs@), rule_name_of(), skip_none(), rule_compat(), 0) {
                            Err(n) => Err(SGatError::DirectedEqConflict { name: n }),
                            Ok(d) => match merge_named(views(t1.policies@), views(t2.policies@), policy_name_of(), skip_none(), policy_compat(), 0) {
                                Err(n) => Err(SGatError::PolicyConflict { name: n }),
                                Ok(p) => Ok((
                                    views(t1.sorts@) + s,
                                    views(t1.ops@) + o,
                                    views(t1.eqs@) + e,
                                    views(t1.directed_eqs@) + d,
                                    views(t1.policies@) + p,
                                )),
                            },
                        },
                    },
                },
            },
        },
    }
}

/// The error, if any, of including a shared theory model into a target
/// model by names: the first shared sort, then operation, it lacks.
pub open spec fn model_inclusion_error(shared: STheory, target: STheory, label: Seq<char>) -> Option<SGatError> {
    match first_missing(model_sort_names(shared), model_sort_names(target), 0) {
        Some(n) => Some(missing_error(true, label, n, target.name)),
        None => match first_missing(model_op_names(shared), model_op_names(target), 0) {
            Some(n) => Some(missing_error(false, label, n, target.name)),
            None => None,
        },
    }
}

/// Names of the sorts a theory model declares.
pub open spec fn model_has_sort(t: STheory) -> spec_fn(Seq<char>) -> bool {
    |n: Seq<char>| first_named(Seq::new(t.sorts.len(), |i: int| t.sorts[i].name), n) is Some
}

/// Names of the operations a theory model declares.
pub open spec fn model_has_op(t: STheory) -> spec_fn(Seq<char>) -> bool {
    |n: Seq<char>| first_named(Seq::new(t.ops.len(), |i: int| t.ops[i].name), n) is Some
}

/// [`colimit_by_name_spec`] on theory models: the pushout theory itself.
pub open spec fn colimit_model(t1: STheory, t2: STheory, shared: STheory) -> Result<STheory, SGatError> {
    match model_inclusion_error(shared, t1, "i1"@) {
        Some(e) => Err(e),
        None => match model_inclusion_error(shared, t2, "i2"@) {
            Some(e) => Err(e),
            None => match merge_named(t1.sorts, t2.sorts, sort_name_of(), model_has_sort(shared), sort_compat(), 0) {
                Err(n) => Err(SGatError::SortConflict { name: n }),
                Ok(s) => match merge_named(t1.ops, t2.ops, op_name_of(), model_has_op(shared), op_compat(), 0) {
                    Err(n) => Err(SGatError::OpConflict { name: n }),
                    Ok(o) => match merge_named(t1.eqs, t2.eqs, eq_name_of(), skip_none(), eq_compat(), 0) {
                        Err(n) => Err(SGatError::EqConflict { name: n }),
                        Ok(e) => match merge_named(t1.directed_eqs, t2.directed_eqs, rule_name_of(), skip_none(), rule_compat(), 0) {
                            Err(n) => Err(SGatError::DirectedEqConflict { name: n }),
                            Ok(d) => match merge_named(t1.policies, t2.policies, policy_name_of(), skip_none(), policy_compat(), 0) {
                                Err(n) => Err(SGatError::PolicyConflict { name: n }),
                                Ok(p) => Ok(STheory {
                                    name: colimit_name(t1.name, t2.name),
                                    extends: Seq::empty(),
                                    sorts: t1.sorts + s,
                                    ops: t1.ops + o,
                                    eqs: t1.eqs + e,
                                    directed_eqs: t1.directed_eqs + d,
                                    policies: t1.policies + p,
                                }),
                            },
                        },
                    },
                },
            },
        },
    }
}

/// The name-lookups of a theory agree with those of its model.
proof fn lemma_model_lookups(t: Theory)
    ensures
        has_sort_named(t) == model_has_sort(t@),
        has_op_named(t) == model_has_op(t@),
{
    assert(sort_names(t.sorts@) =~= Seq::new(t@.sorts.len(), |i: int| t@.sorts[i].name));
    assert(op_names(t.ops@) =~= Seq::new(t@.ops.len(), |i: int| t@.ops[i].name));
    assert(has_sort_named(t) =~= model_has_sort(t@));
    assert(has_op_named(t) =~= model_has_op(t@));
}

/// The name-inclusion check of a theory agrees with that of its model.
proof fn lemma_model_inclusion(shared: Theory, target: Theory, label: Seq<char>)
    ensures
        name_inclusion_error(shared, target, label) == model_inclusion_error(shared@, target@, label),
{
    assert(sort_names(shared.sorts@) =~= model_sort_names(shared@));
    assert(sort_names(target.sorts@) =~= model_sort_names(target@));
    assert(op_names(shared.ops@) =~= model_op_names(shared@));
    assert(op_names(target.ops@) =~= model_op_names(target@));
}

/// The pushout by names, stated over models, agrees with
/// [`colimit_by_name_spec`].
proof fn lemma_colimit_model(t1: Theory, t2: Theory, shared: Theory)
    ensures
        match colimit_by_name_spec(t1, t2, shared) {
            Ok(c) => colimit_model(t1@, t2@, shared@) == Ok::<STheory, SGatError>(STheory {
                name: colimit_name(t1.name@, t2.name@),
                extends: Seq::empty(),
                sorts: c.0,
                ops: c.1,
                eqs: c.2,
                directed_eqs: c.3,
                policies: c.4,
            }),
            Err(e) => colimit_model(t1@, t2@, shared@) == Err::<STheory, SGatError>(e),
        },
{
    lemma_model_lookups(shared);
    lemma_model_inclusion(shared, t1, "i1"@);
    lemma_model_inclusion(shared, t2, "i2"@);
    assert(views(t1.sorts@) =~= t1@.sorts);
    assert(views(t2.sorts@) =~= t2@.sorts);
    assert(views(t1.ops@) =~= t1@.ops);
    assert(views(t2.ops@) =~= t2@.ops);
    assert(views(t1.eqs@) =~= t1@.eqs);
    assert(views(t2.eqs@) =~= t2@.eqs);
    assert(views(t1.directed_eqs@) =~= t1@.directed_eqs);
    assert(views(t2.directed_eqs@) =~= t2@.directed_eqs);
    assert(views(t1.policies@) =~= t1@.policies);
    assert(views(t2.policies@) =~= t2@.policies);
}

/// The theory of the pushout of two theories over a shared theory,
/// identifying components by name, with the errors of
/// [`crate::pushout::pushout_by_name`]; named `T1_T2_colimit` and
/// extending nothing.
pub fn colimit_by_name(t1: &Theory, t2: &Theory, shared: &Theory) -> (r: Result<Theory, GatError>)
    ensures
        match r {
            Ok(t) => colimit_by_name_spec(*t1, *t2, *shared) == Ok::<_, SGatError>((
                views(t.sorts@),
                views(t.ops@),
                views(t.eqs@),
                views(t.directed_eqs@),
                views(t.policies@),
            )) && t.name@ == colimit_name(t1.name@, t2.name@) && t.extends@.len() == 0,
            Err(e) => colimit_by_name_spec(*t1, *t2, *shared) == Err::<(Seq<SSort>, Seq<SOperation>, Seq<SEquation>, Seq<SDirectedEquation>, Seq<SPolicy>), SGatError>(e@),
        },
        match r {
            Ok(t) => colimit_model(t1@, t2@, shared@) == Ok::<STheory, SGatError>(t@),
            Err(e) => colimit_model(t1@, t2@, shared@) == Err::<STheory, SGatError>(e@),
        },
{
    proof {
        lemma_colimit_model(*t1, *t2, *shared);
        reveal_strlit("i1");
        reveal_strlit("i2");
    }
    if let Err(e) = identity_inclusion(shared, t1, "i1") {
        return Err(e);
    }
    if let Err(e) = identity_inclusion(shared, t2, "i2") {
        return Err(e);
    }
    let sorts = match merge_sorts_named(t1, t2, shared) {
        Ok(v) => v,
        Err(n) => {
            return Err(GatError::SortConflict { name: n });
        },
    };
    let ops = match merge_ops_named(t1, t2, shared) {
        Ok(v) => v,
        Err(n) => {
            return Err(GatError::OpConflict { name: n });
        },
    };
    let eqs = match merge_eqs_named(t1, t2) {
        Ok(v) => v,
        Err(n) => {
            return Err(GatError::EqConflict { name: n });
        },
    };
    let des = match merge_rules_named(t1, t2) {
        Ok(v) => v,
        Err(n) => {
            return Err(GatError::DirectedEqConflict { name: n });
        },
    };
    let pols = match merge_policies_named(t1, t2) {
        Ok(v) => v,
        Err(n) => {
            return Err(GatError::PolicyConflict { name: n });
        },
    };
    let mut name = t1.name.clone();
    name.append("_");
    name.append(t2.name.as_str());
    name.append("_colimit");
    let t = Theory { name, extends: Vec::new(), sorts, ops, eqs, directed_eqs: des, policies: pols };
    proof {
        assert(t@.extends =~= Seq::<Seq<char>>::empty());
        assert(t@.sorts =~= views(t.sorts@));
        assert(t@.ops =~= views(t.ops@));
        assert(t@.eqs =~= views(t.eqs@));
        assert(t@.directed_eqs =~= views(t.directed_eqs@));
        assert(t@.policies =~= views(t.policies@));
    }
    Ok(t)
}

} // verus!
