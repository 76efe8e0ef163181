//! Pushouts of theories over explicit morphisms from a shared theory, and
//! their universal property.
use vstd::prelude::*;
use vstd::string::*;

use crate::alpha::{alpha_equiv_equation, alpha_equivalent_equation};
use crate::eq::{DirectedEquation, Equation, SDirectedEquation, SEquation, rename_ops_spec};
use crate::error::{GatError, SGatError};
use crate::maps::{RenameMap, entries_map, entry_views, live_at, live_keys, lookup, map_name, views_map};
use crate::morphism::{TheoryMorphism, compose_maps, composable};
use crate::op::{Implicit, Operation, SOperation};
use crate::sort::{SSort, SSortExpr, Sort, SortExpr, SortParam, signatures_equivalent};
use crate::theory::{ConflictPolicy, SPolicy, STheory, Theory, first_named, op_names, sort_names, eq_names, directed_eq_names, policy_names};

verus! {

/// The renaming of the second theory's names into the first's: for each
/// live entry `s -> a` of `i1` (in entry order) where `i2` maps `s` to
/// `b`, send `b` to `a`; a later entry overrides an earlier one.
pub open spec fn shared_rename_from(
    e1: Seq<(Seq<char>, Seq<char>)>,
    m2: Map<Seq<char>, Seq<char>>,
    i: int,
    acc: Map<Seq<char>, Seq<char>>,
) -> Map<Seq<char>, Seq<char>>
    decreases (if 0 <= i < e1.len() { e1.len() - i } else { 0 }) as nat,
{
    if 0 <= i < e1.len() {
        let acc2 = if live_at(e1, i) && m2.contains_key(e1[i].0) {
            acc.insert(m2[e1[i].0], e1[i].1)
        } else {
            acc
        };
        shared_rename_from(e1, m2, i + 1, acc2)
    } else {
        acc
    }
}

/// The renaming of `t2`'s names induced by two morphisms' maps.
pub open spec fn shared_rename(m1: RenameMap, m2: RenameMap) -> Map<Seq<char>, Seq<char>> {
    shared_rename_from(entry_views(m1.entries@), m2@, 0, Map::empty())
}

fn shared_rename_exec(m1: &RenameMap, m2: &RenameMap) -> (r: RenameMap)
    ensures
        r@ == shared_rename(*m1, *m2),
{
    let ghost e1 = entry_views(m1.entries@);
    let mut r = RenameMap::new();
    let mut i: usize = 0;
    while i < m1.entries.len()
        invariant
            e1 == entry_views(m1.entries@),
            i <= e1.len(),
            shared_rename_from(e1, m2@, i as int, r@) == shared_rename_from(e1, m2@, 0, Map::empty()),
        decreases e1.len() - i,
    {
        let live = m1.is_live(i);
        proof {
            crate::maps::lemma_live_views(m1.entries@, i as int);
        }
        if live {
            match m2.get(&m1.entries[i].0) {
                Some(b) => {
                    r.insert(b.clone(), m1.entries[i].1.clone());
                },
                None => {},
            }
        }
        i = i + 1;
    }
    r
}

/// A sort expression model with its head renamed.
pub open spec fn rename_head_by(e: SSortExpr, m: Map<Seq<char>, Seq<char>>) -> SSortExpr {
    SSortExpr { head: map_name(m, e.head), args: e.args }
}

/// A sort with the heads of its parameter sorts renamed.
pub open spec fn rename_sort_refs(s: SSort, m: Map<Seq<char>, Seq<char>>) -> SSort {
    SSort {
        name: s.name,
        params: Seq::new(s.params.len(), |j: int| (s.params[j].0, rename_head_by(s.params[j].1, m))),
        kind: s.kind,
        closure: s.closure,
    }
}

/// An operation with the heads of its input and output sorts renamed.
pub open spec fn rename_op_refs(o: SOperation, m: Map<Seq<char>, Seq<char>>) -> SOperation {
    SOperation {
        name: o.name,
        inputs: Seq::new(o.inputs.len(), |j: int| (o.inputs[j].0, rename_head_by(o.inputs[j].1, m), o.inputs[j].2)),
        output: rename_head_by(o.output, m),
    }
}

/// Merge the sorts of `t2` from position `k` on into `acc` (which starts
/// as `t1`'s): a sort whose renamed name `t1` declares is dropped when
/// the renaming identifies it, else must agree with `t1`'s first such
/// sort on parameters and kind (a conflict otherwise); any other sort is
/// appended with its parameter sorts renamed.
pub open spec fn merge_sorts_from(t1: Theory, t2s: Seq<SSort>, sr: Map<Seq<char>, Seq<char>>, k: int, acc: Seq<SSort>) -> Result<Seq<SSort>, SGatError>
    decreases (if 0 <= k < t2s.len() { t2s.len() - k } else { 0 }) as nat,
{
    if 0 <= k < t2s.len() {
        let s = t2s[k];
        let eff = map_name(sr, s.name);
        match first_named(sort_names(t1.sorts@), eff) {
            Some(i) => if sr.contains_key(s.name) {
                merge_sorts_from(t1, t2s, sr, k + 1, acc)
            } else if t1.sorts@[i]@.params != s.params || t1.sorts@[i]@.kind != s.kind {
                Err(SGatError::SortConflict { name: eff })
            } else {
                merge_sorts_from(t1, t2s, sr, k + 1, acc)
            },
            None => merge_sorts_from(t1, t2s, sr, k + 1, acc.push(rename_sort_refs(s, sr))),
        }
    } else {
        Ok(acc)
    }
}

/// Merge the operations of `t2` from position `k` on into `acc`, like
/// [`merge_sorts_from`]; two operations agree when their signatures, with
/// `t2`'s sorts renamed, are equivalent up to parameter names.
pub open spec fn merge_ops_from(
    t1: Theory,
    t2o: Seq<SOperation>,
    sr: Map<Seq<char>, Seq<char>>,
    or: Map<Seq<char>, Seq<char>>,
    k: int,
    acc: Seq<SOperation>,
) -> Result<Seq<SOperation>, SGatError>
    decreases (if 0 <= k < t2o.len() { t2o.len() - k } else { 0 }) as nat,
{
    if 0 <= k < t2o.len() {
        let o = t2o[k];
        let eff = map_name(or, o.name);
        let ren = rename_op_refs(o, sr);
        match first_named(op_names(t1.ops@), eff) {
            Some(i) => if or.contains_key(o.name) {
                merge_ops_from(t1, t2o, sr, or, k + 1, acc)
            } else if !signatures_equivalent(t1.ops@[i]@.inputs, t1.ops@[i]@.output, ren.inputs, ren.output) {
                Err(SGatError::OpConflict { name: eff })
            } else {
                merge_ops_from(t1, t2o, sr, or, k + 1, acc)
            },
            None => merge_ops_from(t1, t2o, sr, or, k + 1, acc.push(ren)),
        }
    } else {
        Ok(acc)
    }
}

/// An equation with its operations renamed.
pub open spec fn renamed_equation(e: SEquation, or: Map<Seq<char>, Seq<char>>) -> SEquation {
    SEquation { name: e.name, lhs: rename_ops_spec(e.lhs, or), rhs: rename_ops_spec(e.rhs, or) }
}

/// Merge the equations of `t2` from position `k` on into `acc`: each is
/// renamed; one whose name `t1` declares must be alpha-equivalent to
/// `t1`'s first such equation (a conflict otherwise) and is dropped; any
/// other is appended.
pub open spec fn merge_eqs_from(t1: Theory, t2e: Seq<SEquation>, or: Map<Seq<char>, Seq<char>>, k: int, acc: Seq<SEquation>) -> Result<Seq<SEquation>, SGatError>
    decreases (if 0 <= k < t2e.len() { t2e.len() - k } else { 0 }) as nat,
{
    if 0 <= k < t2e.len() {
        let e = t2e[k];
        let ren = renamed_equation(e, or);
        match first_named(eq_names(t1.eqs@), e.name) {
            Some(i) => if !alpha_equiv_equation(t1.eqs@[i]@.lhs, t1.eqs@[i]@.rhs, ren.lhs, ren.rhs) {
                Err(SGatError::EqConflict { name: e.name })
            } else {
                merge_eqs_from(t1, t2e, or, k + 1, acc)
            },
            None => merge_eqs_from(t1, t2e, or, k + 1, acc.push(ren)),
        }
    } else {
        Ok(acc)
    }
}

/// A directed equation with the operations of its sides renamed.
pub open spec fn renamed_rule(d: SDirectedEquation, or: Map<Seq<char>, Seq<char>>) -> SDirectedEquation {
    SDirectedEquation {
        name: d.name,
        lhs: rename_ops_spec(d.lhs, or),
        rhs: rename_ops_spec(d.rhs, or),
        impl_term: d.impl_term,
        inverse: d.inverse,
        source_kind: d.source_kind,
        target_kind: d.target_kind,
        coercion_class: d.coercion_class,
    }
}

/// Merge the directed equations of `t2` from position `k` on into `acc`,
/// like [`merge_eqs_from`].
pub open spec fn merge_rules_from(
    t1: Theory,
    t2d: Seq<SDirectedEquation>,
    or: Map<Seq<char>, Seq<char>>,
    k: int,
    acc: Seq<SDirectedEquation>,
) -> Result<Seq<SDirectedEquation>, SGatError>
    decreases (if 0 <= k < t2d.len() { t2d.len() - k } else { 0 }) as nat,
{
    if 0 <= k < t2d.len() {
        let d = t2d[k];
        let ren = renamed_rule(d, or);
        match first_named(directed_eq_names(t1.directed_eqs@), d.name) {
            Some(i) => if !alpha_equiv_equation(t1.directed_eqs@[i]@.lhs, t1.directed_eqs@[i]@.rhs, ren.lhs, ren.rhs) {
                Err(SGatError::DirectedEqConflict { name: d.name })
            } else {
                merge_rules_from(t1, t2d, or, k + 1, acc)
            },
            None => merge_rules_from(t1, t2d, or, k + 1, acc.push(ren)),
        }
    } else {
        Ok(acc)
    }
}

/// Merge the policies of `t2` from position `k` on into `acc`: one whose
/// name `t1` declares must agree on value kind and strategy (a conflict
/// otherwise) and is dropped; any other is appended.
pub open spec fn merge_policies_from(t1: Theory, t2p: Seq<SPolicy>, k: int, acc: Seq<SPolicy>) -> Result<Seq<SPolicy>, SGatError>
    decreases (if 0 <= k < t2p.len() { t2p.len() - k } else { 0 }) as nat,
{
    if 0 <= k < t2p.len() {
        let p = t2p[k];
        match first_named(policy_names(t1.policies@), p.name) {
            Some(i) => if t1.policies@[i]@.value_kind != p.value_kind || t1.policies@[i]@.strategy != p.strategy {
                Err(SGatError::PolicyConflict { name: p.name })
            } else {
                merge_policies_from(t1, t2p, k + 1, acc)
            },
            None => merge_policies_from(t1, t2p, k + 1, acc.push(p)),
        }
    } else {
        Ok(acc)
    }
}


fn rename_sort_refs_exec(s: &Sort, m: &RenameMap) -> (r: Sort)
    ensures
        r@ == rename_sort_refs(s@, m@),
{
    let mut params: Vec<SortParam> = Vec::new();
    let mut j: usize = 0;
    while j < s.params.len()
        invariant
            j <= s.params@.len(),
            params@.len() == j,
            forall|k: int| 0 <= k < j ==> #[trigger] crate::sort::param_view(params@[k]) == (s@.params[k].0, rename_head_by(s@.params[k].1, m@)),
        decreases s.params@.len() - j,
    {
        let e = s.params[j].sort.rename_head(m);
        proof {
            assert(e@ == rename_head_by(s@.params[j as int].1, m@));
        }
        params.push(SortParam { name: s.params[j].name.clone(), sort: e });
        j = j + 1;
    }
    let r = Sort { name: s.name.clone(), params, kind: s.kind, closure: s.closure.copy() };
    assert(r@.params =~= rename_sort_refs(s@, m@).params);
    r
}

fn rename_op_refs_exec(o: &Operation, m: &RenameMap) -> (r: Operation)
    ensures
        r@ == rename_op_refs(o@, m@),
{
    let mut inputs: Vec<(String, SortExpr, Implicit)> = Vec::new();
    let mut j: usize = 0;
    while j < o.inputs.len()
        invariant
            j <= o.inputs@.len(),
            inputs@.len() == j,
            forall|k: int| 0 <= k < j ==> #[trigger] crate::op::input_view(inputs@[k]) == (o@.inputs[k].0, rename_head_by(o@.inputs[k].1, m@), o@.inputs[k].2),
        decreases o.inputs@.len() - j,
    {
        let e = o.inputs[j].1.rename_head(m);
        proof {
            assert(e@ == rename_head_by(o@.inputs[j as int].1, m@));
        }
        inputs.push((o.inputs[j].0.clone(), e, o.inputs[j].2));
        j = j + 1;
    }
    let out = o.output.rename_head(m);
    let r = Operation::with_implicit(o.name.as_str(), inputs, out);
    assert(r@.inputs =~= rename_op_refs(o@, m@).inputs);
    r
}

/// The models of a list of values.
pub open spec fn models<T: View>(v: Seq<T>) -> Seq<T::V> {
    Seq::new(v.len(), |i: int| v[i]@)
}

fn merge_sorts(t1: &Theory, t2: &Theory, sr: &RenameMap) -> (r: Result<Vec<Sort>, GatError>)
    ensures
        match r {
            Ok(v) => merge_sorts_from(*t1, t2@.sorts, sr@, 0, t1@.sorts) == Ok::<Seq<SSort>, SGatError>(models(v@)),
            Err(e) => merge_sorts_from(*t1, t2@.sorts, sr@, 0, t1@.sorts) == Err::<Seq<SSort>, SGatError>(e@),
        },
{
    let ghost src = t2@.sorts;
    let ghost total = merge_sorts_from(*t1, src, sr@, 0, t1@.sorts);
    let mut out: Vec<Sort> = Vec::new();
    let mut i: usize = 0;
    while i < t1.sorts.len()
        invariant
            i <= t1.sorts@.len(),
            out@.len() == i,
            forall|k: int| 0 <= k < i ==> #[trigger] out@[k]@ == t1.sorts@[k]@,
        decreases t1.sorts@.len() - i,
    {
        out.push(t1.sorts[i].copy());
        i = i + 1;
    }
    proof {
        assert(models(out@) =~= t1@.sorts);
    }
    let mut k: usize = 0;
    while k < t2.sorts.len()
        invariant
            src == t2@.sorts,
            total == merge_sorts_from(*t1, src, sr@, 0, t1@.sorts),
            k <= src.len(),
            merge_sorts_from(*t1, src, sr@, k as int, models(out@)) == total,
        decreases src.len() - k,
    {
        let s = &t2.sorts[k];
        proof {
            assert(src[k as int] == s@);
        }
        let eff = sr.lookup_or_same(&s.name);
        match t1.find_sort(eff.as_str()) {
            Some(t1s) => {
                if !sr.contains_key(&s.name) {
                    if !crate::sort::params_eq(&t1s.params, &s.params) || t1s.kind != s.kind {
                        return Err(GatError::SortConflict { name: eff });
                    }
                }
            },
            None => {
                let ghost before = models(out@);
                out.push(rename_sort_refs_exec(s, sr));
                proof {
                    assert(models(out@) =~= before.push(rename_sort_refs(s@, sr@)));
                }
            },
        }
        k = k + 1;
    }
    Ok(out)
}

fn merge_ops(t1: &Theory, t2: &Theory, sr: &RenameMap, or: &RenameMap) -> (r: Result<Vec<Operation>, GatError>)
    ensures
        match r {
            Ok(v) => merge_ops_from(*t1, t2@.ops, sr@, or@, 0, t1@.ops) == Ok::<Seq<SOperation>, SGatError>(models(v@)),
            Err(e) => merge_ops_from(*t1, t2@.ops, sr@, or@, 0, t1@.ops) == Err::<Seq<SOperation>, SGatError>(e@),
        },
{
    let ghost src = t2@.ops;
    let ghost total = merge_ops_from(*t1, src, sr@, or@, 0, t1@.ops);
    let mut out: Vec<Operation> = Vec::new();
    let mut i: usize = 0;
    while i < t1.ops.len()
        invariant
            i <= t1.ops@.len(),
            out@.len() == i,
            forall|k: int| 0 <= k < i ==> #[trigger] out@[k]@ == t1.ops@[k]@,
        decreases t1.ops@.len() - i,
    {
        out.push(t1.ops[i].copy());
        i = i + 1;
    }
    proof {
        assert(models(out@) =~= t1@.ops);
    }
    let mut k: usize = 0;
    while k < t2.ops.len()
        invariant
            src == t2@.ops,
            total == merge_ops_from(*t1, src, sr@, or@, 0, t1@.ops),
            k <= src.len(),
            merge_ops_from(*t1, src, sr@, or@, k as int, models(out@)) == total,
        decreases src.len() - k,
    {
        let o = &t2.ops[k];
        proof {
            assert(src[k as int] == o@);
        }
        let eff = or.lookup_or_same(&o.name);
        let ren = rename_op_refs_exec(o, sr);
        match t1.find_op(eff.as_str()) {
            Some(t1o) => {
                if !or.contains_key(&o.name) {
                    if !crate::sort::signatures_equivalent_modulo_param_rename(&t1o.inputs, &t1o.output, &ren.inputs, &ren.output) {
                        return Err(GatError::OpConflict { name: eff });
                    }
                }
            },
            None => {
                let ghost before = models(out@);
                let ghost rv = ren@;
                out.push(ren);
                proof {
                    assert(models(out@) =~= before.push(rv));
                }
            },
        }
        k = k + 1;
    }
    Ok(out)
}

fn merge_eqs(t1: &Theory, t2: &Theory, or: &RenameMap) -> (r: Result<Vec<Equation>, GatError>)
    ensures
        match r {
            Ok(v) => merge_eqs_from(*t1, t2@.eqs, or@, 0, t1@.eqs) == Ok::<Seq<SEquation>, SGatError>(models(v@)),
            Err(e) => merge_eqs_from(*t1, t2@.eqs, or@, 0, t1@.eqs) == Err::<Seq<SEquation>, SGatError>(e@),
        },
{
    let ghost src = t2@.eqs;
    let ghost total = merge_eqs_from(*t1, src, or@, 0, t1@.eqs);
    let mut out: Vec<Equation> = Vec::new();
    let mut i: usize = 0;
    while i < t1.eqs.len()
        invariant
            i <= t1.eqs@.len(),
            out@.len() == i,
            forall|k: int| 0 <= k < i ==> #[trigger] out@[k]@ == t1.eqs@[k]@,
        decreases t1.eqs@.len() - i,
    {
        out.push(t1.eqs[i].copy());
        i = i + 1;
    }
    proof {
        assert(models(out@) =~= t1@.eqs);
    }
    let mut k: usize = 0;
    while k < t2.eqs.len()
        invariant
            src == t2@.eqs,
            total == merge_eqs_from(*t1, src, or@, 0, t1@.eqs),
            k <= src.len(),
            merge_eqs_from(*t1, src, or@, k as int, models(out@)) == total,
        decreases src.len() - k,
    {
        let e = &t2.eqs[k];
        proof {
            assert(src[k as int] == e@);
        }
        let ren = e.rename_ops(or);
        match t1.find_eq(e.name.as_str()) {
            Some(t1e) => {
                if !alpha_equivalent_equation(&t1e.lhs, &t1e.rhs, &ren.lhs, &ren.rhs) {
                    return Err(GatError::EqConflict { name: e.name.clone() });
                }
            },
            None => {
                let ghost before = models(out@);
                let ghost rv = ren@;
                out.push(ren);
                proof {
                    assert(models(out@) =~= before.push(rv));
                }
            },
        }
        k = k + 1;
    }
    Ok(out)
}

fn merge_rules(t1: &Theory, t2: &Theory, or: &RenameMap) -> (r: Result<Vec<DirectedEquation>, GatError>)
    ensures
        match r {
            Ok(v) => merge_rules_from(*t1, t2@.directed_eqs, or@, 0, t1@.directed_eqs) == Ok::<Seq<SDirectedEquation>, SGatError>(models(v@)),
            Err(e) => merge_rules_from(*t1, t2@.directed_eqs, or@, 0, t1@.directed_eqs) == Err::<Seq<SDirectedEquation>, SGatError>(e@),
        },
{
    let ghost src = t2@.directed_eqs;
    let ghost total = merge_rules_from(*t1, src, or@, 0, t1@.directed_eqs);
    let mut out: Vec<DirectedEquation> = Vec::new();
    let mut i: usize = 0;
    while i < t1.directed_eqs.len()
        invariant
            i <= t1.directed_eqs@.len(),
            out@.len() == i,
            forall|k: int| 0 <= k < i ==> #[trigger] out@[k]@ == t1.directed_eqs@[k]@,
        decreases t1.directed_eqs@.len() - i,
    {
        out.push(t1.directed_eqs[i].copy());
        i = i + 1;
    }
    proof {
        assert(models(out@) =~= t1@.directed_eqs);
    }
    let mut k: usize = 0;
    while k < t2.directed_eqs.len()
        invariant
            src == t2@.directed_eqs,
            total == merge_rules_from(*t1, src, or@, 0, t1@.directed_eqs),
            k <= src.len(),
            merge_rules_from(*t1, src, or@, k as int, models(out@)) == total,
        decreases src.len() - k,
    {
        let d = &t2.directed_eqs[k];
        proof {
            assert(src[k as int] == d@);
        }
        let ren = d.rename_ops(or);
        proof {
            assert(ren@ == renamed_rule(d@, or@));
        }
        match t1.find_directed_eq(d.name.as_str()) {
            Some(t1d) => {
                if !alpha_equivalent_equation(&t1d.lhs, &t1d.rhs, &ren.lhs, &ren.rhs) {
                    return Err(GatError::DirectedEqConflict { name: d.name.clone() });
                }
            },
            None => {
                let ghost before = models(out@);
                let ghost rv = ren@;
                out.push(ren);
                proof {
                    assert(models(out@) =~= before.push(rv));
                }
            },
        }
        k = k + 1;
    }
    Ok(out)
}

fn merge_policies(t1: &Theory, t2: &Theory) -> (r: Result<Vec<ConflictPolicy>, GatError>)
    ensures
        match r {
            Ok(v) => merge_policies_from(*t1, t2@.policies, 0, t1@.policies) == Ok::<Seq<SPolicy>, SGatError>(models(v@)),
            Err(e) => merge_policies_from(*t1, t2@.policies, 0, t1@.policies) == Err::<Seq<SPolicy>, SGatError>(e@),
        },
{
    let ghost src = t2@.policies;
    let ghost total = merge_policies_from(*t1, src, 0, t1@.policies);
    let mut out: Vec<ConflictPolicy> = Vec::new();
    let mut i: usize = 0;
    while i < t1.policies.len()
        invariant
            i <= t1.policies@.len(),
            out@.len() == i,
            forall|k: int| 0 <= k < i ==> #[trigger] out@[k]@ == t1.policies@[k]@,
        decreases t1.policies@.len() - i,
    {
        out.push(t1.policies[i].copy());
        i = i + 1;
    }
    proof {
        assert(models(out@) =~= t1@.policies);
    }
    let mut k: usize = 0;
    while k < t2.policies.len()
        invariant
            src == t2@.policies,
            total == merge_policies_from(*t1, src, 0, t1@.policies),
            k <= src.len(),
            merge_policies_from(*t1, src, k as int, models(out@)) == total,
        decreases src.len() - k,
    {
        let p = &t2.policies[k];
        proof {
            assert(src[k as int] == p@);
        }
        match t1.find_policy(p.name.as_str()) {
            Some(t1p) => {
                if t1p.value_kind != p.value_kind || t1p.strategy != p.strategy {
                    return Err(GatError::PolicyConflict { name: p.name.clone() });
                }
            },
            None => {
                let ghost before = models(out@);
                out.push(p.copy());
                proof {
                    assert(models(out@) =~= before.push(p@));
                }
            },
        }
        k = k + 1;
    }
    Ok(out)
}


// ---------------------------------------------------------------------------
// The pushout over morphisms
// ---------------------------------------------------------------------------

/// The inclusion map of a theory's names into the pushout: each name to
/// its image under `m`, or to itself.
pub open spec fn inclusion_map(names: Seq<Seq<char>>, m: Map<Seq<char>, Seq<char>>) -> Map<Seq<char>, Seq<char>> {
    Map::new(|x: Seq<char>| names.contains(x), |x: Seq<char>| map_name(m, x))
}

fn inclusion_map_exec(names: &Vec<String>, m: &RenameMap) -> (r: RenameMap)
    ensures
        r@ == inclusion_map(crate::term::names_view(names@), m@),
{
    let ghost nv = crate::term::names_view(names@);
    let mut r = RenameMap::new();
    let mut i: usize = 0;
    while i < names.len()
        invariant
            nv == crate::term::names_view(names@),
            i <= names@.len(),
            r@ == inclusion_map(nv.take(i as int), m@),
        decreases names@.len() - i,
    {
        r.insert(names[i].clone(), m.lookup_or_same(&names[i]));
        proof {
            assert forall|x: Seq<char>| #[trigger] nv.take(i + 1).contains(x) == (nv.take(i as int).contains(x) || x == nv[i as int]) by {
                if nv.take(i + 1).contains(x) {
                    let q = choose|q: int| 0 <= q < i + 1 && #[trigger] nv.take(i + 1)[q] == x;
                    if q < i {
                        assert(nv.take(i as int)[q] == x);
                    }
                }
                if nv.take(i as int).contains(x) {
                    let q = choose|q: int| 0 <= q < i && #[trigger] nv.take(i as int)[q] == x;
                    assert(nv.take(i + 1)[q] == x);
                }
                if x == nv[i as int] {
                    assert(nv.take(i + 1)[i as int] == x);
                }
            }
            assert(r@ =~= inclusion_map(nv.take(i + 1), m@));
        }
        i = i + 1;
    }
    proof {
        assert(nv.take(nv.len() as int) =~= nv);
    }
    r
}

fn sort_name_list(t: &Theory) -> (r: Vec<String>)
    ensures
        crate::term::names_view(r@) == sort_names(t.sorts@),
{
    let mut r: Vec<String> = Vec::new();
    let mut i: usize = 0;
    while i < t.sorts.len()
        invariant
            i <= t.sorts@.len(),
            r@.len() == i,
            forall|k: int| 0 <= k < i ==> #[trigger] r@[k]@ == t.sorts@[k].name@,
        decreases t.sorts@.len() - i,
    {
        r.push(t.sorts[i].name.clone());
        i = i + 1;
    }
    assert(crate::term::names_view(r@) =~= sort_names(t.sorts@));
    r
}

fn op_name_list(t: &Theory) -> (r: Vec<String>)
    ensures
        crate::term::names_view(r@) == op_names(t.ops@),
{
    let mut r: Vec<String> = Vec::new();
    let mut i: usize = 0;
    while i < t.ops.len()
        invariant
            i <= t.ops@.len(),
            r@.len() == i,
            forall|k: int| 0 <= k < i ==> #[trigger] r@[k]@ == t.ops@[k].name@,
        decreases t.ops@.len() - i,
    {
        r.push(t.ops[i].name.clone());
        i = i + 1;
    }
    assert(crate::term::names_view(r@) =~= op_names(t.ops@));
    r
}

/// The name of the inclusion of `source` into the pushout `pn`.
pub open spec fn inclusion_name(source: Seq<char>, pn: Seq<char>) -> Seq<char> {
    "incl_"@ + source + "_"@ + pn
}

fn build_inclusion(source: &Theory, pn: &String, sr: &RenameMap, or: &RenameMap) -> (r: TheoryMorphism)
    ensures
        r.name@ == inclusion_name(source.name@, pn@),
        r.domain@ == source.name@,
        r.codomain@ == pn@,
        r.sort_map@ == inclusion_map(sort_names(source.sorts@), sr@),
        r.op_map@ == inclusion_map(op_names(source.ops@), or@),
{
    let sm = inclusion_map_exec(&sort_name_list(source), sr);
    let om = inclusion_map_exec(&op_name_list(source), or);
    proof {
        reveal_strlit("incl_");
        reveal_strlit("_");
    }
    let mut name = String::new();
    name.append("incl_");
    name.append(source.name.as_str());
    name.append("_");
    name.append(pn.as_str());
    proof {
        assert(name@ =~= inclusion_name(source.name@, pn@));
    }
    TheoryMorphism::new(name.as_str(), source.name.as_str(), pn.as_str(), sm, om)
}

/// The text shown for an optional image.
pub open spec fn shown(o: Option<Seq<char>>) -> Seq<char> {
    match o {
        Some(v) => v,
        None => "(none)"@,
    }
}

/// The error for a name on which the two legs of a cocone disagree.
pub open spec fn cocone_error(kind: Seq<char>, key: Seq<char>, l: Option<Seq<char>>, r: Option<Seq<char>>) -> SGatError {
    SGatError::EquationNotPreserved {
        equation: "cocone "@ + kind + " "@ + key,
        detail: "j1\u{2218}i1 maps to "@ + shown(l) + ", j2\u{2218}i2 maps to "@ + shown(r),
    }
}

/// The first of `keys` from position `i` on where the two maps disagree,
/// as a cocone error.
pub open spec fn cocone_check_from(
    keys: Seq<Seq<char>>,
    lhs: Map<Seq<char>, Seq<char>>,
    rhs: Map<Seq<char>, Seq<char>>,
    kind: Seq<char>,
    i: int,
) -> Option<SGatError>
    decreases (if 0 <= i < keys.len() { keys.len() - i } else { 0 }) as nat,
{
    if 0 <= i < keys.len() {
        if lookup(lhs, keys[i]) != lookup(rhs, keys[i]) {
            Some(cocone_error(kind, keys[i], lookup(lhs, keys[i]), lookup(rhs, keys[i])))
        } else {
            cocone_check_from(keys, lhs, rhs, kind, i + 1)
        }
    } else {
        None
    }
}

fn shown_exec(o: Option<&String>) -> (r: String)
    ensures
        r@ == shown(match o {
            Some(v) => Some(v@),
            None => None,
        }),
{
    match o {
        Some(v) => v.clone(),
        None => {
            proof {
                reveal_strlit("(none)");
            }
            "(none)".to_owned()
        },
    }
}

fn cocone_error_exec(kind: &str, key: &String, l: Option<&String>, r: Option<&String>) -> (e: GatError)
    ensures
        e@ == cocone_error(
            kind@,
            key@,
            match l {
                Some(v) => Some(v@),
                None => None,
            },
            match r {
                Some(v) => Some(v@),
                None => None,
            },
        ),
{
    proof {
        reveal_strlit("cocone ");
        reveal_strlit(" ");
        reveal_strlit("j1\u{2218}i1 maps to ");
        reveal_strlit(", j2\u{2218}i2 maps to ");
    }
    let mut eqn = String::new();
    eqn.append("cocone ");
    eqn.append(kind);
    eqn.append(" ");
    eqn.append(key.as_str());
    let mut det = String::new();
    det.append("j1\u{2218}i1 maps to ");
    det.append(shown_exec(l).as_str());
    det.append(", j2\u{2218}i2 maps to ");
    det.append(shown_exec(r).as_str());
    proof {
        let lv = match l {
            Some(v) => Some(v@),
            None => None,
        };
        let rv = match r {
            Some(v) => Some(v@),
            None => None,
        };
        assert(eqn@ =~= "cocone "@ + kind@ + " "@ + key@);
        assert(det@ =~= "j1\u{2218}i1 maps to "@ + shown(lv) + ", j2\u{2218}i2 maps to "@ + shown(rv));
    }
    GatError::EquationNotPreserved { equation: eqn, detail: det }
}

fn opt_view(o: Option<&String>) -> (r: Option<String>)
    ensures
        crate::term::opt_name_view(r) == match o {
            Some(v) => Some(v@),
            None => None,
        },
{
    match o {
        Some(v) => Some(v.clone()),
        None => None,
    }
}

fn check_cocone_keys(keys: &Vec<String>, lhs: &RenameMap, rhs: &RenameMap, kind: &str) -> (r: Result<(), GatError>)
    ensures
        match r {
            Ok(()) => cocone_check_from(crate::term::names_view(keys@), lhs@, rhs@, kind@, 0) is None,
            Err(e) => cocone_check_from(crate::term::names_view(keys@), lhs@, rhs@, kind@, 0) == Some(e@),
        },
{
    let ghost kv = crate::term::names_view(keys@);
    let mut i: usize = 0;
    while i < keys.len()
        invariant
            kv == crate::term::names_view(keys@),
            i <= keys@.len(),
            cocone_check_from(kv, lhs@, rhs@, kind@, 0) == cocone_check_from(kv, lhs@, rhs@, kind@, i as int),
        decreases keys@.len() - i,
    {
        let k = &keys[i];
        proof {
            assert(kv[i as int] == k@);
        }
        let l = lhs.get(k);
        let r = rhs.get(k);
        let lo = opt_view(l);
        let ro = opt_view(r);
        let same = match (&lo, &ro) {
            (Some(a), Some(b)) => *a == *b,
            (None, None) => true,
            _ => false,
        };
        proof {
            assert(crate::term::opt_name_view(lo) == lookup(lhs@, k@));
            assert(crate::term::opt_name_view(ro) == lookup(rhs@, k@));
        }
        if !same {
            return Err(cocone_error_exec(kind, k, l, r));
        }
        i = i + 1;
    }
    Ok(())
}

pub(crate) fn live_keys_exec(m: &RenameMap) -> (r: Vec<String>)
    ensures
        crate::term::names_view(r@) == live_keys(entry_views(m.entries@), 0),
{
    let ghost vs = entry_views(m.entries@);
    let mut out: Vec<String> = Vec::new();
    let mut i: usize = 0;
    proof {
        assert(crate::term::names_view(out@) =~= Seq::<Seq<char>>::empty());
    }
    while i < m.entries.len()
        invariant
            vs == entry_views(m.entries@),
            i <= vs.len(),
            crate::term::names_view(out@) + live_keys(vs, i as int) == live_keys(vs, 0),
        decreases vs.len() - i,
    {
        let live = m.is_live(i);
        proof {
            crate::maps::lemma_live_views(m.entries@, i as int);
        }
        let ghost before = crate::term::names_view(out@);
        let ghost rest = live_keys(vs, i + 1);
        if live {
            out.push(m.entries[i].0.clone());
            proof {
                assert(crate::term::names_view(out@) =~= before + seq![vs[i as int].0]);
                assert(before + (seq![vs[i as int].0] + rest) =~= crate::term::names_view(out@) + rest);
            }
        } else {
            proof {
                assert(before + (Seq::<Seq<char>>::empty() + rest) =~= before + rest);
            }
        }
        i = i + 1;
    }
    proof {
        let o = crate::term::names_view(out@);
        assert(o + Seq::<Seq<char>>::empty() =~= o);
    }
    out
}


/// A key with a live entry is among the live keys from any earlier position.
proof fn lemma_live_keys_from(vs: Seq<(Seq<char>, Seq<char>)>, j: int, i: int)
    requires
        0 <= j <= i < vs.len(),
        live_at(vs, i),
    ensures
        live_keys(vs, j).contains(vs[i].0),
    decreases i - j,
{
    let head: Seq<Seq<char>> = if live_at(vs, j) { seq![vs[j].0] } else { Seq::empty() };
    if j == i {
        assert((head + live_keys(vs, j + 1))[0] == vs[i].0);
    } else {
        lemma_live_keys_from(vs, j + 1, i);
        let rest = live_keys(vs, j + 1);
        let w = choose|w: int| 0 <= w < rest.len() && rest[w] == vs[i].0;
        assert((head + rest)[head.len() + w] == vs[i].0);
    }
}

/// Every key of a renaming is among its live keys.
pub proof fn lemma_live_keys_cover(es: Seq<(String, String)>, k: Seq<char>)
    requires
        entries_map(es).contains_key(k),
    ensures
        live_keys(entry_views(es), 0).contains(k),
{
    crate::maps::lemma_entries_map_live(es, k);
    let i = choose|i: int| 0 <= i < es.len() && #[trigger] es[i].0@ == k && crate::maps::entry_live(es, i);
    crate::maps::lemma_live_views(es, i);
    lemma_live_keys_from(entry_views(es), 0, i);
}

/// When no key disagrees, the two maps agree on every key.
proof fn lemma_cocone_agree(
    keys: Seq<Seq<char>>,
    lhs: Map<Seq<char>, Seq<char>>,
    rhs: Map<Seq<char>, Seq<char>>,
    kind: Seq<char>,
    i: int,
)
    requires
        0 <= i,
        cocone_check_from(keys, lhs, rhs, kind, i) is None,
    ensures
        forall|j: int| i <= j < keys.len() ==> lookup(lhs, #[trigger] keys[j]) == lookup(rhs, keys[j]),
    decreases (if 0 <= i < keys.len() { keys.len() - i } else { 0 }) as nat,
{
    if i < keys.len() {
        lemma_cocone_agree(keys, lhs, rhs, kind, i + 1);
    }
}

/// The merged components of the pushout of `t1` and `t2` under the sort
/// renaming `sr` and the operation renaming `or`: sorts, operations,
/// equations, directed equations and policies, each list `t1`'s followed
/// by what `t2` adds; the first conflict, in that order, is the error.
pub open spec fn pushout_components(
    t1: Theory,
    t2: Theory,
    sr: Map<Seq<char>, Seq<char>>,
    or: Map<Seq<char>, Seq<char>>,
) -> Result<(Seq<SSort>, Seq<SOperation>, Seq<SEquation>, Seq<SDirectedEquation>, Seq<SPolicy>), SGatError> {
    match merge_sorts_from(t1, t2@.sorts, sr, 0, t1@.sorts) {
        Err(e) => Err(e),
        Ok(s) => match merge_ops_from(t1, t2@.ops, sr, or, 0, t1@.ops) {
            Err(e) => Err(e),
            Ok(o) => match merge_eqs_from(t1, t2@.eqs, or, 0, t1@.eqs) {
                Err(e) => Err(e),
                Ok(q) => match merge_rules_from(t1, t2@.directed_eqs, or, 0, t1@.directed_eqs) {
                    Err(e) => Err(e),
                    Ok(d) => match merge_policies_from(t1, t2@.policies, 0, t1@.policies) {
                        Err(e) => Err(e),
                        Ok(p) => Ok((s, o, q, d, p)),
                    },
                },
            },
        },
    }
}

/// `e` reports a name of `f` whose image `g` lacks: a sort when the sort
/// maps do not compose, else an operation.
pub open spec fn compose_unmapped(
    e: SGatError,
    fs: Map<Seq<char>, Seq<char>>,
    fo: Map<Seq<char>, Seq<char>>,
    gs: Map<Seq<char>, Seq<char>>,
    go: Map<Seq<char>, Seq<char>>,
) -> bool {
    if !composable(fs, gs) {
        e matches SGatError::ComposeUnmapped { kind, name, image } && kind == "sort"@ && fs.contains_key(name)
            && fs[name] == image && !gs.contains_key(image)
    } else {
        e matches SGatError::ComposeUnmapped { kind, name, image } && kind == "op"@ && fo.contains_key(name)
            && fo[name] == image && !go.contains_key(image)
    }
}

/// The result of a pushout: the pushout theory and the inclusions of the
/// two theories into it.
#[derive(Debug)]
pub struct ColimitResult {
    /// The pushout theory.
    pub theory: Theory,
    /// The inclusion of the first theory: `j1: T1 → P`.
    pub inclusion1: TheoryMorphism,
    /// The inclusion of the second theory: `j2: T2 → P`.
    pub inclusion2: TheoryMorphism,
}

/// What [`colimit`] gives for `t1`, `t2`, `i1: S → T1` and `i2: S → T2`.
///
/// The renamings send `i2(x)` to `i1(x)` for each shared sort and
/// operation `x`. The components are merged as [`pushout_components`]
/// says; the pushout is named `T1_T2_colimit` and extends nothing. The
/// inclusion `j1` sends each name of `t1` to itself, `j2` each name of
/// `t2` to its renaming. Then `i1;j1` and `i2;j2` are composed (an
/// unmapped image fails), and the two composites must agree on each
/// live key of `i1`'s sort map, then of its operation map, in order.
pub open spec fn colimit_outcome(t1: Theory, t2: Theory, i1: TheoryMorphism, i2: TheoryMorphism, r: Result<ColimitResult, GatError>) -> bool {
    let sr = shared_rename(i1.sort_map, i2.sort_map);
    let or = shared_rename(i1.op_map, i2.op_map);
    let pn = crate::colimit::colimit_name(t1.name@, t2.name@);
    let j1s = inclusion_map(sort_names(t1.sorts@), Map::empty());
    let j1o = inclusion_map(op_names(t1.ops@), Map::empty());
    let j2s = inclusion_map(sort_names(t2.sorts@), sr);
    let j2o = inclusion_map(op_names(t2.ops@), or);
    match pushout_components(t1, t2, sr, or) {
        Err(e) => r matches Err(x) && x@ == e,
        Ok(c) => if !(composable(i1.sort_map@, j1s) && composable(i1.op_map@, j1o)) {
            r matches Err(x) && compose_unmapped(x@, i1.sort_map@, i1.op_map@, j1s, j1o)
        } else if !(composable(i2.sort_map@, j2s) && composable(i2.op_map@, j2o)) {
            r matches Err(x) && compose_unmapped(x@, i2.sort_map@, i2.op_map@, j2s, j2o)
        } else {
            let ls = compose_maps(i1.sort_map@, j1s);
            let rs = compose_maps(i2.sort_map@, j2s);
            let lo = compose_maps(i1.op_map@, j1o);
            let ro = compose_maps(i2.op_map@, j2o);
            match cocone_check_from(live_keys(entry_views(i1.sort_map.entries@), 0), ls, rs, "sort"@, 0) {
                Some(e) => r matches Err(x) && x@ == e,
                None => match cocone_check_from(live_keys(entry_views(i1.op_map.entries@), 0), lo, ro, "op"@, 0) {
                    Some(e) => r matches Err(x) && x@ == e,
                    None => r matches Ok(res) && res.theory@ == (STheory {
                        name: pn,
                        extends: Seq::empty(),
                        sorts: c.0,
                        ops: c.1,
                        eqs: c.2,
                        directed_eqs: c.3,
                        policies: c.4,
                    }) && res.inclusion1.name@ == inclusion_name(t1.name@, pn) && res.inclusion1.domain@ == t1.name@
                        && res.inclusion1.codomain@ == pn && res.inclusion1.sort_map@ == j1s && res.inclusion1.op_map@ == j1o
                        && res.inclusion2.name@ == inclusion_name(t2.name@, pn) && res.inclusion2.domain@ == t2.name@
                        && res.inclusion2.codomain@ == pn && res.inclusion2.sort_map@ == j2s && res.inclusion2.op_map@ == j2o,
                },
            }
        },
    }
}

/// The pushout of `t1` and `t2` over `i1: S → T1` and `i2: S → T2`,
/// identifying `i1(x)` with `i2(x)` for each sort and operation `x` of
/// the shared theory, with the inclusions `j1` and `j2`; the cocone
/// `j1 ∘ i1 = j2 ∘ i2` holds on every shared sort and operation.
pub fn colimit(t1: &Theory, t2: &Theory, i1: &TheoryMorphism, i2: &TheoryMorphism) -> (r: Result<ColimitResult, GatError>)
    ensures
        colimit_outcome(*t1, *t2, *i1, *i2, r),
        r matches Ok(res) ==> (forall|s: Seq<char>| #[trigger] i1.sort_map@.contains_key(s) ==> lookup(
            compose_maps(i1.sort_map@, res.inclusion1.sort_map@),
            s,
        ) == lookup(compose_maps(i2.sort_map@, res.inclusion2.sort_map@), s)),
        r matches Ok(res) ==> (forall|o: Seq<char>| #[trigger] i1.op_map@.contains_key(o) ==> lookup(
            compose_maps(i1.op_map@, res.inclusion1.op_map@),
            o,
        ) == lookup(compose_maps(i2.op_map@, res.inclusion2.op_map@), o)),
{
    let sr = shared_rename_exec(&i1.sort_map, &i2.sort_map);
    let or = shared_rename_exec(&i1.op_map, &i2.op_map);
    let sorts = match merge_sorts(t1, t2, &sr) {
        Ok(v) => v,
        Err(e) => {
            return Err(e);
        },
    };
    let ops = match merge_ops(t1, t2, &sr, &or) {
        Ok(v) => v,
        Err(e) => {
            return Err(e);
        },
    };
    let eqs = match merge_eqs(t1, t2, &or) {
        Ok(v) => v,
        Err(e) => {
            return Err(e);
        },
    };
    let des = match merge_rules(t1, t2, &or) {
        Ok(v) => v,
        Err(e) => {
            return Err(e);
        },
    };
    let pols = match merge_policies(t1, t2) {
        Ok(v) => v,
        Err(e) => {
            return Err(e);
        },
    };
    proof {
        reveal_strlit("_");
        reveal_strlit("_colimit");
    }
    let mut pn = t1.name.clone();
    pn.append("_");
    pn.append(t2.name.as_str());
    pn.append("_colimit");
    proof {
        assert(pn@ =~= crate::colimit::colimit_name(t1.name@, t2.name@));
    }
    let ghost (ms, mo, mq, md, mp) = (models(sorts@), models(ops@), models(eqs@), models(des@), models(pols@));
    let theory = Theory::full(pn.as_str(), Vec::new(), sorts, ops, eqs, des, pols);
    proof {
        assert(theory@.sorts =~= ms);
        assert(theory@.ops =~= mo);
        assert(theory@.eqs =~= mq);
        assert(theory@.directed_eqs =~= md);
        assert(theory@.policies =~= mp);
        assert(theory@.extends =~= Seq::<Seq<char>>::empty());
    }
    let none_s = RenameMap::new();
    let none_o = RenameMap::new();
    let j1 = build_inclusion(t1, &pn, &none_s, &none_o);
    let j2 = build_inclusion(t2, &pn, &sr, &or);
    let lhs = match i1.compose(&j1) {
        Ok(m) => m,
        Err(e) => {
            return Err(e);
        },
    };
    let rhs = match i2.compose(&j2) {
        Ok(m) => m,
        Err(e) => {
            return Err(e);
        },
    };
    let ks = live_keys_exec(&i1.sort_map);
    match check_cocone_keys(&ks, &lhs.sort_map, &rhs.sort_map, "sort") {
        Ok(()) => {},
        Err(e) => {
            return Err(e);
        },
    }
    let ko = live_keys_exec(&i1.op_map);
    match check_cocone_keys(&ko, &lhs.op_map, &rhs.op_map, "op") {
        Ok(()) => {},
        Err(e) => {
            return Err(e);
        },
    }
    proof {
        lemma_cocone_agree(crate::term::names_view(ks@), lhs.sort_map@, rhs.sort_map@, "sort"@, 0);
        lemma_cocone_agree(crate::term::names_view(ko@), lhs.op_map@, rhs.op_map@, "op"@, 0);
        assert forall|s: Seq<char>| #[trigger] i1.sort_map@.contains_key(s) implies lookup(lhs.sort_map@, s) == lookup(rhs.sort_map@, s) by {
            lemma_live_keys_cover(i1.sort_map.entries@, s);
            let kv = crate::term::names_view(ks@);
            let w = choose|w: int| 0 <= w < kv.len() && kv[w] == s;
            assert(lookup(lhs.sort_map@, kv[w]) == lookup(rhs.sort_map@, kv[w]));
        }
        assert forall|o: Seq<char>| #[trigger] i1.op_map@.contains_key(o) implies lookup(lhs.op_map@, o) == lookup(rhs.op_map@, o) by {
            lemma_live_keys_cover(i1.op_map.entries@, o);
            let kv = crate::term::names_view(ko@);
            let w = choose|w: int| 0 <= w < kv.len() && kv[w] == o;
            assert(lookup(lhs.op_map@, kv[w]) == lookup(rhs.op_map@, kv[w]));
        }
    }
    Ok(ColimitResult { theory, inclusion1: j1, inclusion2: j2 })
}


// ---------------------------------------------------------------------------
// The cocone and the universal property
// ---------------------------------------------------------------------------

/// What [`ColimitResult::verify_cocone`] gives: `i1;j1` and `i2;j2` are
/// composed (an unmapped image fails), then must agree on each sort of
/// the shared theory, then on each operation, in declaration order.
pub open spec fn cocone_outcome(
    i1: TheoryMorphism,
    i2: TheoryMorphism,
    j1: TheoryMorphism,
    j2: TheoryMorphism,
    shared: Theory,
    r: Result<(), GatError>,
) -> bool {
    if !(composable(i1.sort_map@, j1.sort_map@) && composable(i1.op_map@, j1.op_map@)) {
        r matches Err(x) && compose_unmapped(x@, i1.sort_map@, i1.op_map@, j1.sort_map@, j1.op_map@)
    } else if !(composable(i2.sort_map@, j2.sort_map@) && composable(i2.op_map@, j2.op_map@)) {
        r matches Err(x) && compose_unmapped(x@, i2.sort_map@, i2.op_map@, j2.sort_map@, j2.op_map@)
    } else {
        let ls = compose_maps(i1.sort_map@, j1.sort_map@);
        let rs = compose_maps(i2.sort_map@, j2.sort_map@);
        let lo = compose_maps(i1.op_map@, j1.op_map@);
        let ro = compose_maps(i2.op_map@, j2.op_map@);
        match cocone_check_from(sort_names(shared.sorts@), ls, rs, "sort"@, 0) {
            Some(e) => r matches Err(x) && x@ == e,
            None => match cocone_check_from(op_names(shared.ops@), lo, ro, "op"@, 0) {
                Some(e) => r matches Err(x) && x@ == e,
                None => r is Ok,
            },
        }
    }
}

impl ColimitResult {
    /// Check the cocone condition `j1 ∘ i1 = j2 ∘ i2` on every sort and
    /// operation of the shared theory.
    pub fn verify_cocone(&self, i1: &TheoryMorphism, i2: &TheoryMorphism, shared: &Theory) -> (r: Result<(), GatError>)
        ensures
            cocone_outcome(*i1, *i2, self.inclusion1, self.inclusion2, *shared, r),
    {
        let lhs = match i1.compose(&self.inclusion1) {
            Ok(m) => m,
            Err(e) => {
                return Err(e);
            },
        };
        let rhs = match i2.compose(&self.inclusion2) {
            Ok(m) => m,
            Err(e) => {
                return Err(e);
            },
        };
        match check_cocone_keys(&sort_name_list(shared), &lhs.sort_map, &rhs.sort_map, "sort") {
            Ok(()) => {},
            Err(e) => {
                return Err(e);
            },
        }
        check_cocone_keys(&op_name_list(shared), &lhs.op_map, &rhs.op_map, "op")
    }
}

/// The error for a name of a leg's theory that the alternative cocone's
/// leg leaves unmapped.
pub open spec fn leg_unmapped_error(kind: Seq<char>, p: Seq<char>, leg: Seq<char>, t: Seq<char>) -> SGatError {
    SGatError::EquationNotPreserved {
        equation: "universal property "@ + kind + " "@ + p,
        detail: leg + " has no mapping for "@ + kind + " `"@ + t + "`"@,
    }
}

/// The error for a pushout name that two names of one theory reach but
/// that the alternative leg sends to different images.
pub open spec fn leg_clash_error(kind: Seq<char>, p: Seq<char>, leg: Seq<char>, existing: Seq<char>, q: Seq<char>) -> SGatError {
    SGatError::EquationNotPreserved {
        equation: "universal property "@ + kind + " "@ + p,
        detail: "two T-preimages of `"@ + p + "` map to distinct Q-images under "@ + leg + ": `"@ + existing + "` vs `"@
            + q + "`; the alternative cocone is not commutative"@,
    }
}

/// Extend the mediator `acc` along the live entries `t -> p` of an
/// inclusion from position `i` on: `p` is sent to `k(t)`; a `t` that `k`
/// leaves unmapped, or a `p` already sent elsewhere, is an error.
pub open spec fn mediate_from(
    vs: Seq<(Seq<char>, Seq<char>)>,
    k: Map<Seq<char>, Seq<char>>,
    kind: Seq<char>,
    leg: Seq<char>,
    i: int,
    acc: Map<Seq<char>, Seq<char>>,
) -> Result<Map<Seq<char>, Seq<char>>, SGatError>
    decreases (if 0 <= i < vs.len() { vs.len() - i } else { 0 }) as nat,
{
    if 0 <= i < vs.len() {
        if !live_at(vs, i) {
            mediate_from(vs, k, kind, leg, i + 1, acc)
        } else {
            let t = vs[i].0;
            let p = vs[i].1;
            if !k.contains_key(t) {
                Err(leg_unmapped_error(kind, p, leg, t))
            } else if acc.contains_key(p) {
                if acc[p] == k[t] {
                    mediate_from(vs, k, kind, leg, i + 1, acc)
                } else {
                    Err(leg_clash_error(kind, p, leg, acc[p], k[t]))
                }
            } else {
                mediate_from(vs, k, kind, leg, i + 1, acc.insert(p, k[t]))
            }
        }
    } else {
        Ok(acc)
    }
}

/// A successful extension keeps what `acc` had and sends the image of
/// each live entry from `i` on to the alternative leg's image of its name.
proof fn lemma_mediate_from(
    vs: Seq<(Seq<char>, Seq<char>)>,
    k: Map<Seq<char>, Seq<char>>,
    kind: Seq<char>,
    leg: Seq<char>,
    i: int,
    acc: Map<Seq<char>, Seq<char>>,
)
    requires
        0 <= i,
        mediate_from(vs, k, kind, leg, i, acc) is Ok,
    ensures
        ({
            let out = mediate_from(vs, k, kind, leg, i, acc)->Ok_0;
            &&& forall|p: Seq<char>| #[trigger] acc.contains_key(p) ==> out.contains_key(p) && out[p] == acc[p]
            &&& forall|j: int| i <= j < vs.len() && #[trigger] live_at(vs, j) ==> k.contains_key(vs[j].0)
                && out.contains_key(vs[j].1) && out[vs[j].1] == k[vs[j].0]
        }),
    decreases (if 0 <= i < vs.len() { vs.len() - i } else { 0 }) as nat,
{
    if i < vs.len() {
        if !live_at(vs, i) {
            lemma_mediate_from(vs, k, kind, leg, i + 1, acc);
        } else {
            let t = vs[i].0;
            let p = vs[i].1;
            let out = mediate_from(vs, k, kind, leg, i, acc)->Ok_0;
            if acc.contains_key(p) {
                lemma_mediate_from(vs, k, kind, leg, i + 1, acc);
                assert(out.contains_key(p) && out[p] == acc[p]);
            } else {
                let acc2 = acc.insert(p, k[t]);
                lemma_mediate_from(vs, k, kind, leg, i + 1, acc2);
                assert(acc2.contains_key(p));
                assert forall|x: Seq<char>| #[trigger] acc.contains_key(x) implies out.contains_key(x) && out[x] == acc[x] by {
                    assert(acc2.contains_key(x));
                }
            }
        }
    }
}

/// Every name a successful extension maps was in `acc` already, or is
/// the image of a live entry from `i` on, sent to the alternative leg's
/// image of that entry's name.
proof fn lemma_mediate_origin(
    vs: Seq<(Seq<char>, Seq<char>)>,
    k: Map<Seq<char>, Seq<char>>,
    kind: Seq<char>,
    leg: Seq<char>,
    i: int,
    acc: Map<Seq<char>, Seq<char>>,
)
    requires
        0 <= i,
        mediate_from(vs, k, kind, leg, i, acc) is Ok,
    ensures
        forall|p: Seq<char>| #[trigger] mediate_from(vs, k, kind, leg, i, acc)->Ok_0.contains_key(p) ==> (acc.contains_key(p)
            && mediate_from(vs, k, kind, leg, i, acc)->Ok_0[p] == acc[p]) || (exists|j: int|
            i <= j < vs.len() && live_at(vs, j) && #[trigger] vs[j].1 == p && k.contains_key(vs[j].0)
                && mediate_from(vs, k, kind, leg, i, acc)->Ok_0[p] == k[vs[j].0]),
    decreases (if 0 <= i < vs.len() { vs.len() - i } else { 0 }) as nat,
{
    let out = mediate_from(vs, k, kind, leg, i, acc)->Ok_0;
    if i < vs.len() {
        if !live_at(vs, i) {
            lemma_mediate_origin(vs, k, kind, leg, i + 1, acc);
            assert forall|p: Seq<char>| #[trigger] out.contains_key(p) implies (acc.contains_key(p) && out[p] == acc[p]) || (exists|j: int|
                i <= j < vs.len() && live_at(vs, j) && #[trigger] vs[j].1 == p && k.contains_key(vs[j].0) && out[p] == k[vs[j].0]) by {
                if !(acc.contains_key(p) && out[p] == acc[p]) {
                    let j = choose|j: int| i + 1 <= j < vs.len() && live_at(vs, j) && #[trigger] vs[j].1 == p && k.contains_key(vs[j].0)
                        && out[p] == k[vs[j].0];
                    assert(i <= j);
                }
            }
        } else {
            let t = vs[i].0;
            let p0 = vs[i].1;
            let acc2 = if acc.contains_key(p0) { acc } else { acc.insert(p0, k[t]) };
            lemma_mediate_origin(vs, k, kind, leg, i + 1, acc2);
            assert forall|p: Seq<char>| #[trigger] out.contains_key(p) implies (acc.contains_key(p) && out[p] == acc[p]) || (exists|j: int|
                i <= j < vs.len() && live_at(vs, j) && #[trigger] vs[j].1 == p && k.contains_key(vs[j].0) && out[p] == k[vs[j].0]) by {
                if acc2.contains_key(p) && out[p] == acc2[p] {
                    if !acc.contains_key(p0) && p == p0 {
                        assert(vs[i].1 == p);
                    }
                } else {
                    let j = choose|j: int| i + 1 <= j < vs.len() && live_at(vs, j) && #[trigger] vs[j].1 == p && k.contains_key(vs[j].0)
                        && out[p] == k[vs[j].0];
                    assert(i <= j);
                }
            }
        }
    }
}

/// The first of `names` from position `i` on that `m` leaves unmapped.
pub open spec fn first_uncovered(names: Seq<Seq<char>>, m: Map<Seq<char>, Seq<char>>, i: int) -> Option<Seq<char>>
    decreases (if 0 <= i < names.len() { names.len() - i } else { 0 }) as nat,
{
    if 0 <= i < names.len() {
        if !m.contains_key(names[i]) {
            Some(names[i])
        } else {
            first_uncovered(names, m, i + 1)
        }
    } else {
        None
    }
}

/// The error for a pushout name that no inclusion reaches.
pub open spec fn uncovered_error(kind: Seq<char>, n: Seq<char>) -> SGatError {
    SGatError::EquationNotPreserved {
        equation: "universal property "@ + kind + " "@ + n,
        detail: "pushout "@ + kind + " `"@ + n + "` is not the image of any T1 or T2 "@ + kind
            + " under the inclusions; no mediator can be defined on it"@,
    }
}

/// The error for an alternative cocone whose legs do not end in `q`.
pub open spec fn codomain_error(k1: Seq<char>, k2: Seq<char>, q: Seq<char>) -> SGatError {
    SGatError::EquationNotPreserved {
        equation: "universal property"@,
        detail: "alternative cocone codomain mismatch: k1="@ + k1 + ", k2="@ + k2 + ", q="@ + q,
    }
}

/// The error for a mediator that does not factor the first (or, when
/// `second`, the second) alternative leg through the inclusion.
pub open spec fn factor_error(second: bool) -> SGatError {
    if second {
        SGatError::EquationNotPreserved {
            equation: "universal property: m \u{2218} j2 = k2"@,
            detail: "mediating morphism does not factor k2 through j2"@,
        }
    } else {
        SGatError::EquationNotPreserved {
            equation: "universal property: m \u{2218} j1 = k1"@,
            detail: "mediating morphism does not factor k1 through j1"@,
        }
    }
}

/// The name of the mediator from the pushout `p` to `q`.
pub open spec fn mediator_name(p: Seq<char>, q: Seq<char>) -> Seq<char> {
    "mediator_"@ + p + "_to_"@ + q
}

/// What [`ColimitResult::verify_universal`] gives for the alternative
/// cocone `(q, k1, k2)`: the sort and operation maps of the mediator, or
/// the first error. Both legs must end in `q`; the mediator is assembled
/// from the sort inclusions (first, then second) and the operation
/// inclusions, must cover every sort and operation of the pushout, and
/// must factor `k1` through `j1` and `k2` through `j2` exactly.
pub open spec fn universal_outcome(res: ColimitResult, q: Theory, k1: TheoryMorphism, k2: TheoryMorphism) -> Result<
    (Map<Seq<char>, Seq<char>>, Map<Seq<char>, Seq<char>>),
    SGatError,
> {
    if k1.codomain@ != q.name@ || k2.codomain@ != q.name@ {
        Err(codomain_error(k1.codomain@, k2.codomain@, q.name@))
    } else {
        match mediate_from(entry_views(res.inclusion1.sort_map.entries@), k1.sort_map@, "sort"@, "k1"@, 0, Map::empty()) {
            Err(e) => Err(e),
            Ok(s1) => match mediate_from(entry_views(res.inclusion2.sort_map.entries@), k2.sort_map@, "sort"@, "k2"@, 0, s1) {
                Err(e) => Err(e),
                Ok(s) => match mediate_from(entry_views(res.inclusion1.op_map.entries@), k1.op_map@, "op"@, "k1"@, 0, Map::empty()) {
                    Err(e) => Err(e),
                    Ok(o1) => match mediate_from(entry_views(res.inclusion2.op_map.entries@), k2.op_map@, "op"@, "k2"@, 0, o1) {
                        Err(e) => Err(e),
                        Ok(o) => match first_uncovered(sort_names(res.theory.sorts@), s, 0) {
                            Some(n) => Err(uncovered_error("sort"@, n)),
                            None => match first_uncovered(op_names(res.theory.ops@), o, 0) {
                                Some(n) => Err(uncovered_error("op"@, n)),
                                None => if compose_maps(res.inclusion1.sort_map@, s) != k1.sort_map@
                                    || compose_maps(res.inclusion1.op_map@, o) != k1.op_map@ {
                                    Err(factor_error(false))
                                } else if compose_maps(res.inclusion2.sort_map@, s) != k2.sort_map@
                                    || compose_maps(res.inclusion2.op_map@, o) != k2.op_map@ {
                                    Err(factor_error(true))
                                } else {
                                    Ok((s, o))
                                },
                            },
                        },
                    },
                },
            },
        }
    }
}


/// Every name of an inclusion reaches, through a successful extension,
/// the alternative leg's image of that name.
proof fn lemma_inclusion_covered(
    es: Seq<(String, String)>,
    k: Map<Seq<char>, Seq<char>>,
    kind: Seq<char>,
    leg: Seq<char>,
    acc: Map<Seq<char>, Seq<char>>,
)
    requires
        mediate_from(entry_views(es), k, kind, leg, 0, acc) is Ok,
    ensures
        forall|a: Seq<char>| #[trigger] entries_map(es).contains_key(a) ==> k.contains_key(a)
            && mediate_from(entry_views(es), k, kind, leg, 0, acc)->Ok_0.contains_key(entries_map(es)[a])
            && mediate_from(entry_views(es), k, kind, leg, 0, acc)->Ok_0[entries_map(es)[a]] == k[a],
{
    let vs = entry_views(es);
    lemma_mediate_from(vs, k, kind, leg, 0, acc);
    assert forall|a: Seq<char>| #[trigger] entries_map(es).contains_key(a) implies k.contains_key(a)
        && mediate_from(vs, k, kind, leg, 0, acc)->Ok_0.contains_key(entries_map(es)[a])
        && mediate_from(vs, k, kind, leg, 0, acc)->Ok_0[entries_map(es)[a]] == k[a] by {
        crate::maps::lemma_entries_map_live(es, a);
        let i = choose|i: int| 0 <= i < es.len() && #[trigger] es[i].0@ == a && crate::maps::entry_live(es, i);
        crate::maps::lemma_live_views(es, i);
        crate::maps::lemma_entries_map_last(es, i, a);
        assert(live_at(vs, i));
    }
}

fn leg_unmapped_exec(kind: &str, p: &String, leg: &str, t: &String) -> (e: GatError)
    ensures
        e@ == leg_unmapped_error(kind@, p@, leg@, t@),
{
    proof {
        reveal_strlit("universal property ");
        reveal_strlit(" ");
        reveal_strlit(" has no mapping for ");
        reveal_strlit(" `");
        reveal_strlit("`");
    }
    let mut eqn = String::new();
    eqn.append("universal property ");
    eqn.append(kind);
    eqn.append(" ");
    eqn.append(p.as_str());
    let mut det = String::new();
    det.append(leg);
    det.append(" has no mapping for ");
    det.append(kind);
    det.append(" `");
    det.append(t.as_str());
    det.append("`");
    proof {
        assert(eqn@ =~= "universal property "@ + kind@ + " "@ + p@);
        assert(det@ =~= leg@ + " has no mapping for "@ + kind@ + " `"@ + t@ + "`"@);
    }
    GatError::EquationNotPreserved { equation: eqn, detail: det }
}

fn leg_clash_exec(kind: &str, p: &String, leg: &str, existing: &String, q: &String) -> (e: GatError)
    ensures
        e@ == leg_clash_error(kind@, p@, leg@, existing@, q@),
{
    proof {
        reveal_strlit("universal property ");
        reveal_strlit(" ");
        reveal_strlit("two T-preimages of `");
        reveal_strlit("` map to distinct Q-images under ");
        reveal_strlit(": `");
        reveal_strlit("` vs `");
        reveal_strlit("`; the alternative cocone is not commutative");
    }
    let mut eqn = String::new();
    eqn.append("universal property ");
    eqn.append(kind);
    eqn.append(" ");
    eqn.append(p.as_str());
    let mut det = String::new();
    det.append("two T-preimages of `");
    det.append(p.as_str());
    det.append("` map to distinct Q-images under ");
    det.append(leg);
    det.append(": `");
    det.append(existing.as_str());
    det.append("` vs `");
    det.append(q.as_str());
    det.append("`; the alternative cocone is not commutative");
    proof {
        assert(eqn@ =~= "universal property "@ + kind@ + " "@ + p@);
        assert(det@ =~= "two T-preimages of `"@ + p@ + "` map to distinct Q-images under "@ + leg@ + ": `"@ + existing@
            + "` vs `"@ + q@ + "`; the alternative cocone is not commutative"@);
    }
    GatError::EquationNotPreserved { equation: eqn, detail: det }
}

fn uncovered_exec(kind: &str, n: &String) -> (e: GatError)
    ensures
        e@ == uncovered_error(kind@, n@),
{
    proof {
        reveal_strlit("universal property ");
        reveal_strlit(" ");
        reveal_strlit("pushout ");
        reveal_strlit(" `");
        reveal_strlit("` is not the image of any T1 or T2 ");
        reveal_strlit(" under the inclusions; no mediator can be defined on it");
    }
    let mut eqn = String::new();
    eqn.append("universal property ");
    eqn.append(kind);
    eqn.append(" ");
    eqn.append(n.as_str());
    let mut det = String::new();
    det.append("pushout ");
    det.append(kind);
    det.append(" `");
    det.append(n.as_str());
    det.append("` is not the image of any T1 or T2 ");
    det.append(kind);
    det.append(" under the inclusions; no mediator can be defined on it");
    proof {
        assert(eqn@ =~= "universal property "@ + kind@ + " "@ + n@);
        assert(det@ =~= "pushout "@ + kind@ + " `"@ + n@ + "` is not the image of any T1 or T2 "@ + kind@
            + " under the inclusions; no mediator can be defined on it"@);
    }
    GatError::EquationNotPreserved { equation: eqn, detail: det }
}

fn codomain_exec(k1: &String, k2: &String, q: &String) -> (e: GatError)
    ensures
        e@ == codomain_error(k1@, k2@, q@),
{
    proof {
        reveal_strlit("universal property");
        reveal_strlit("alternative cocone codomain mismatch: k1=");
        reveal_strlit(", k2=");
        reveal_strlit(", q=");
    }
    let mut eqn = String::new();
    eqn.append("universal property");
    let mut det = String::new();
    det.append("alternative cocone codomain mismatch: k1=");
    det.append(k1.as_str());
    det.append(", k2=");
    det.append(k2.as_str());
    det.append(", q=");
    det.append(q.as_str());
    proof {
        assert(eqn@ =~= "universal property"@);
        assert(det@ =~= "alternative cocone codomain mismatch: k1="@ + k1@ + ", k2="@ + k2@ + ", q="@ + q@);
    }
    GatError::EquationNotPreserved { equation: eqn, detail: det }
}

fn factor_exec(second: bool) -> (e: GatError)
    ensures
        e@ == factor_error(second),
{
    if second {
        GatError::EquationNotPreserved {
            equation: "universal property: m \u{2218} j2 = k2".to_owned(),
            detail: "mediating morphism does not factor k2 through j2".to_owned(),
        }
    } else {
        GatError::EquationNotPreserved {
            equation: "universal property: m \u{2218} j1 = k1".to_owned(),
            detail: "mediating morphism does not factor k1 through j1".to_owned(),
        }
    }
}

fn mediate(med: &mut RenameMap, inc: &RenameMap, k: &RenameMap, kind: &str, leg: &str) -> (r: Result<(), GatError>)
    ensures
        match mediate_from(entry_views(inc.entries@), k@, kind@, leg@, 0, old(med)@) {
            Ok(m) => r is Ok && final(med)@ == m,
            Err(e) => r matches Err(x) && x@ == e,
        },
{
    let ghost vs = entry_views(inc.entries@);
    let ghost total = mediate_from(vs, k@, kind@, leg@, 0, med@);
    let mut i: usize = 0;
    while i < inc.entries.len()
        invariant
            vs == entry_views(inc.entries@),
            i <= vs.len(),
            mediate_from(vs, k@, kind@, leg@, i as int, med@) == total,
            total == mediate_from(vs, k@, kind@, leg@, 0, old(med)@),
        decreases vs.len() - i,
    {
        let live = inc.is_live(i);
        proof {
            crate::maps::lemma_live_views(inc.entries@, i as int);
        }
        if live {
            let t = &inc.entries[i].0;
            let p = &inc.entries[i].1;
            proof {
                assert(vs[i as int].0 == t@ && vs[i as int].1 == p@);
            }
            match k.get(t) {
                None => {
                    return Err(leg_unmapped_exec(kind, p, leg, t));
                },
                Some(qn) => {
                    match med.get(p) {
                        Some(ex) => {
                            if *ex != *qn {
                                return Err(leg_clash_exec(kind, p, leg, ex, qn));
                            }
                        },
                        None => {
                            med.insert(p.clone(), qn.clone());
                        },
                    }
                },
            }
        }
        i = i + 1;
    }
    Ok(())
}

fn first_uncovered_exec(names: &Vec<String>, m: &RenameMap) -> (r: Option<String>)
    ensures
        crate::term::opt_name_view(r) == first_uncovered(crate::term::names_view(names@), m@, 0),
{
    let ghost nv = crate::term::names_view(names@);
    let mut i: usize = 0;
    while i < names.len()
        invariant
            nv == crate::term::names_view(names@),
            i <= nv.len(),
            first_uncovered(nv, m@, i as int) == first_uncovered(nv, m@, 0),
        decreases nv.len() - i,
    {
        if !m.contains_key(&names[i]) {
            return Some(names[i].clone());
        }
        i = i + 1;
    }
    None
}

/// `b` has `k` with the same image as in `a`.
pub open spec fn agrees_at(a: Map<Seq<char>, Seq<char>>, b: Map<Seq<char>, Seq<char>>, k: Seq<char>) -> bool {
    a.contains_key(k) && b.contains_key(k) && b[k] == a[k]
}

fn map_equal(a: &RenameMap, b: &RenameMap) -> (r: bool)
    ensures
        r == (a@ == b@),
{
    let mut i: usize = 0;
    while i < a.entries.len()
        invariant
            i <= a.entries@.len(),
            forall|j: int| 0 <= j < i ==> agrees_at(a@, b@, #[trigger] a.entries@[j].0@),
        decreases a.entries@.len() - i,
    {
        let key = &a.entries[i].0;
        proof {
            crate::maps::lemma_entries_map_dom(a.entries@, key@);
        }
        let ax = a.get(key);
        let bx = b.get(key);
        match bx {
            None => {
                return false;
            },
            Some(y) => {
                match ax {
                    None => {
                        return false;
                    },
                    Some(x) => {
                        if *x != *y {
                            return false;
                        }
                        proof {
                            assert(key@ == a.entries@[i as int].0@);
                            assert(agrees_at(a@, b@, a.entries@[i as int].0@));
                        }
                    },
                }
            },
        }
        i = i + 1;
    }
    let mut j: usize = 0;
    while j < b.entries.len()
        invariant
            j <= b.entries@.len(),
            forall|q: int| 0 <= q < j ==> #[trigger] a@.contains_key(b.entries@[q].0@),
        decreases b.entries@.len() - j,
    {
        if !a.contains_key(&b.entries[j].0) {
            proof {
                crate::maps::lemma_entries_map_dom(b.entries@, b.entries@[j as int].0@);
            }
            return false;
        }
        j = j + 1;
    }
    proof {
        assert forall|x: Seq<char>| #[trigger] a@.contains_key(x) implies b@.contains_key(x) && b@[x] == a@[x] by {
            crate::maps::lemma_entries_map_dom(a.entries@, x);
            let w = choose|w: int| 0 <= w < a.entries@.len() && #[trigger] a.entries@[w].0@ == x;
            assert(agrees_at(a@, b@, a.entries@[w].0@));
        }
        assert forall|x: Seq<char>| #[trigger] b@.contains_key(x) implies a@.contains_key(x) by {
            crate::maps::lemma_entries_map_dom(b.entries@, x);
            let w = choose|w: int| 0 <= w < b.entries@.len() && #[trigger] b.entries@[w].0@ == x;
            assert(a@.contains_key(b.entries@[w].0@));
        }
        assert(a@ =~= b@);
    }
    true
}

impl ColimitResult {
    /// Check the universal property against an alternative cocone
    /// `(q, k1, k2)` and return the mediating morphism `m: P → Q`, named
    /// `mediator_P_to_Q`, with `m ∘ j1 = k1` and `m ∘ j2 = k2`.
    pub fn verify_universal(&self, q: &Theory, k1: &TheoryMorphism, k2: &TheoryMorphism) -> (r: Result<TheoryMorphism, GatError>)
        ensures
            match universal_outcome(*self, *q, *k1, *k2) {
                Ok((s, o)) => r matches Ok(m) && m.name@ == mediator_name(self.theory.name@, q.name@)
                    && m.domain@ == self.theory.name@ && m.codomain@ == q.name@ && m.sort_map@ == s && m.op_map@ == o,
                Err(e) => r matches Err(x) && x@ == e,
            },
            r matches Ok(m) ==> compose_maps(self.inclusion1.sort_map@, m.sort_map@) == k1.sort_map@
                && compose_maps(self.inclusion1.op_map@, m.op_map@) == k1.op_map@
                && compose_maps(self.inclusion2.sort_map@, m.sort_map@) == k2.sort_map@
                && compose_maps(self.inclusion2.op_map@, m.op_map@) == k2.op_map@,
    {
        if k1.codomain != q.name || k2.codomain != q.name {
            return Err(codomain_exec(&k1.codomain, &k2.codomain, &q.name));
        }
        let mut sm = RenameMap::new();
        match mediate(&mut sm, &self.inclusion1.sort_map, &k1.sort_map, "sort", "k1") {
            Ok(()) => {},
            Err(e) => {
                return Err(e);
            },
        }
        let ghost s1 = sm@;
        match mediate(&mut sm, &self.inclusion2.sort_map, &k2.sort_map, "sort", "k2") {
            Ok(()) => {},
            Err(e) => {
                return Err(e);
            },
        }
        let mut om = RenameMap::new();
        match mediate(&mut om, &self.inclusion1.op_map, &k1.op_map, "op", "k1") {
            Ok(()) => {},
            Err(e) => {
                return Err(e);
            },
        }
        let ghost o1 = om@;
        match mediate(&mut om, &self.inclusion2.op_map, &k2.op_map, "op", "k2") {
            Ok(()) => {},
            Err(e) => {
                return Err(e);
            },
        }
        match first_uncovered_exec(&sort_name_list(&self.theory), &sm) {
            Some(n) => {
                return Err(uncovered_exec("sort", &n));
            },
            None => {},
        }
        match first_uncovered_exec(&op_name_list(&self.theory), &om) {
            Some(n) => {
                return Err(uncovered_exec("op", &n));
            },
            None => {},
        }
        proof {
            reveal_strlit("mediator_");
            reveal_strlit("_to_");
            let e1s = self.inclusion1.sort_map.entries@;
            let e2s = self.inclusion2.sort_map.entries@;
            let e1o = self.inclusion1.op_map.entries@;
            let e2o = self.inclusion2.op_map.entries@;
            lemma_inclusion_covered(e1s, k1.sort_map@, "sort"@, "k1"@, Map::empty());
            lemma_inclusion_covered(e2s, k2.sort_map@, "sort"@, "k2"@, s1);
            lemma_mediate_from(entry_views(e2s), k2.sort_map@, "sort"@, "k2"@, 0, s1);
            lemma_inclusion_covered(e1o, k1.op_map@, "op"@, "k1"@, Map::empty());
            lemma_inclusion_covered(e2o, k2.op_map@, "op"@, "k2"@, o1);
            lemma_mediate_from(entry_views(e2o), k2.op_map@, "op"@, "k2"@, 0, o1);
            assert forall|a: Seq<char>| #[trigger] self.inclusion1.sort_map@.contains_key(a) implies sm@.contains_key(self.inclusion1.sort_map@[a]) by {
                assert(s1.contains_key(self.inclusion1.sort_map@[a]));
            }
            assert forall|a: Seq<char>| #[trigger] self.inclusion1.op_map@.contains_key(a) implies om@.contains_key(self.inclusion1.op_map@[a]) by {
                assert(o1.contains_key(self.inclusion1.op_map@[a]));
            }
        }
        let mut name = String::new();
        name.append("mediator_");
        name.append(self.theory.name.as_str());
        name.append("_to_");
        name.append(q.name.as_str());
        proof {
            assert(name@ =~= mediator_name(self.theory.name@, q.name@));
        }
        let mediator = TheoryMorphism::new(name.as_str(), self.theory.name.as_str(), q.name.as_str(), sm, om);
        let m_j1 = match self.inclusion1.compose(&mediator) {
            Ok(m) => m,
            Err(e) => {
                return Err(e);
            },
        };
        let m_j2 = match self.inclusion2.compose(&mediator) {
            Ok(m) => m,
            Err(e) => {
                return Err(e);
            },
        };
        if !map_equal(&m_j1.sort_map, &k1.sort_map) || !map_equal(&m_j1.op_map, &k1.op_map) {
            return Err(factor_exec(false));
        }
        if !map_equal(&m_j2.sort_map, &k2.sort_map) || !map_equal(&m_j2.op_map, &k2.op_map) {
            return Err(factor_exec(true));
        }
        Ok(mediator)
    }
}


/// A live entry of a renaming is one of its bindings.
proof fn lemma_live_binding(es: Seq<(String, String)>, j: int)
    requires
        0 <= j < es.len(),
        live_at(entry_views(es), j),
    ensures
        entries_map(es).contains_key(entry_views(es)[j].0),
        entries_map(es)[entry_views(es)[j].0] == entry_views(es)[j].1,
{
    crate::maps::lemma_live_views(es, j);
    crate::maps::lemma_entries_map_last(es, j, es[j].0@);
}

/// The mediator is unique: any sort and operation maps through which the
/// two inclusions factor `k1` and `k2` agree with the mediator on every
/// name it maps.
pub proof fn lemma_mediator_unique(
    res: ColimitResult,
    q: Theory,
    k1: TheoryMorphism,
    k2: TheoryMorphism,
    s2: Map<Seq<char>, Seq<char>>,
    o2: Map<Seq<char>, Seq<char>>,
)
    requires
        universal_outcome(res, q, k1, k2) is Ok,
        compose_maps(res.inclusion1.sort_map@, s2) == k1.sort_map@,
        compose_maps(res.inclusion2.sort_map@, s2) == k2.sort_map@,
        compose_maps(res.inclusion1.op_map@, o2) == k1.op_map@,
        compose_maps(res.inclusion2.op_map@, o2) == k2.op_map@,
    ensures
        forall|p: Seq<char>| #[trigger] universal_outcome(res, q, k1, k2)->Ok_0.0.contains_key(p)
            ==> s2[p] == universal_outcome(res, q, k1, k2)->Ok_0.0[p],
        forall|p: Seq<char>| #[trigger] universal_outcome(res, q, k1, k2)->Ok_0.1.contains_key(p)
            ==> o2[p] == universal_outcome(res, q, k1, k2)->Ok_0.1[p],
{
    let (s, o) = universal_outcome(res, q, k1, k2)->Ok_0;
    lemma_factor_unique(res.inclusion1.sort_map, res.inclusion2.sort_map, k1.sort_map@, k2.sort_map@, "sort"@, s2);
    lemma_factor_unique(res.inclusion1.op_map, res.inclusion2.op_map, k1.op_map@, k2.op_map@, "op"@, o2);
}

/// One kind of names of [`lemma_mediator_unique`].
proof fn lemma_factor_unique(
    j1: RenameMap,
    j2: RenameMap,
    k1: Map<Seq<char>, Seq<char>>,
    k2: Map<Seq<char>, Seq<char>>,
    kind: Seq<char>,
    m2: Map<Seq<char>, Seq<char>>,
)
    requires
        mediate_from(entry_views(j1.entries@), k1, kind, "k1"@, 0, Map::empty()) is Ok,
        mediate_from(
            entry_views(j2.entries@),
            k2,
            kind,
            "k2"@,
            0,
            mediate_from(entry_views(j1.entries@), k1, kind, "k1"@, 0, Map::empty())->Ok_0,
        ) is Ok,
        compose_maps(j1@, m2) == k1,
        compose_maps(j2@, m2) == k2,
    ensures
        ({
            let m = mediate_from(
                entry_views(j2.entries@),
                k2,
                kind,
                "k2"@,
                0,
                mediate_from(entry_views(j1.entries@), k1, kind, "k1"@, 0, Map::empty())->Ok_0,
            )->Ok_0;
            forall|p: Seq<char>| #[trigger] m.contains_key(p) ==> m2[p] == m[p]
        }),
{
    let v1 = entry_views(j1.entries@);
    let v2 = entry_views(j2.entries@);
    let m1 = mediate_from(v1, k1, kind, "k1"@, 0, Map::empty())->Ok_0;
    let m = mediate_from(v2, k2, kind, "k2"@, 0, m1)->Ok_0;
    lemma_mediate_origin(v1, k1, kind, "k1"@, 0, Map::empty());
    lemma_mediate_origin(v2, k2, kind, "k2"@, 0, m1);
    assert forall|p: Seq<char>| #[trigger] m.contains_key(p) implies m2[p] == m[p] by {
        if m1.contains_key(p) && m[p] == m1[p] {
            let j = choose|j: int| 0 <= j < v1.len() && live_at(v1, j) && #[trigger] v1[j].1 == p && k1.contains_key(v1[j].0)
                && m1[p] == k1[v1[j].0];
            lemma_live_binding(j1.entries@, j);
            assert(compose_maps(j1@, m2)[v1[j].0] == m2[p]);
        } else {
            let j = choose|j: int| 0 <= j < v2.len() && live_at(v2, j) && #[trigger] v2[j].1 == p && k2.contains_key(v2[j].0)
                && m[p] == k2[v2[j].0];
            lemma_live_binding(j2.entries@, j);
            assert(compose_maps(j2@, m2)[v2[j].0] == m2[p]);
        }
    }
}

// ---------------------------------------------------------------------------
// The pushout over a shared theory, by names
// ---------------------------------------------------------------------------

/// The first of `names` from position `i` on that `present` lacks.
pub open spec fn first_missing(names: Seq<Seq<char>>, present: Seq<Seq<char>>, i: int) -> Option<Seq<char>>
    decreases (if 0 <= i < names.len() { names.len() - i } else { 0 }) as nat,
{
    if 0 <= i < names.len() {
        if !present.contains(names[i]) {
            Some(names[i])
        } else {
            first_missing(names, present, i + 1)
        }
    } else {
        None
    }
}

/// The error for a shared sort (or, unless `sort`, operation) `n` that the
/// target theory lacks.
pub open spec fn missing_error(sort: bool, label: Seq<char>, n: Seq<char>, target: Seq<char>) -> SGatError {
    if sort {
        SGatError::MissingSortMapping(label + ": shared sort `"@ + n + "` is not present in target theory `"@ + target + "`"@)
    } else {
        SGatError::MissingOpMapping(label + ": shared op `"@ + n + "` is not present in target theory `"@ + target + "`"@)
    }
}

/// Each name paired with itself.
pub open spec fn identity_pairs(names: Seq<Seq<char>>) -> Seq<(Seq<char>, Seq<char>)> {
    Seq::new(names.len(), |i: int| (names[i], names[i]))
}

/// `m` is the inclusion of `shared` into `target` by names: named
/// `label_S_into_T`, with one entry per shared sort (operation), in order,
/// sending the name to itself.
pub open spec fn is_name_inclusion(shared: Theory, target: Theory, label: Seq<char>, m: TheoryMorphism) -> bool {
    &&& m.name@ == label + "_"@ + shared.name@ + "_into_"@ + target.name@
    &&& m.domain@ == shared.name@
    &&& m.codomain@ == target.name@
    &&& entry_views(m.sort_map.entries@) == identity_pairs(sort_names(shared.sorts@))
    &&& entry_views(m.op_map.entries@) == identity_pairs(op_names(shared.ops@))
    &&& m.sort_map@ == crate::morphism::identity_map(sort_names(shared.sorts@))
    &&& m.op_map@ == crate::morphism::identity_map(op_names(shared.ops@))
}

/// The error, if any, of including `shared` into `target` by names: the
/// first shared sort, then operation, that `target` lacks.
pub open spec fn name_inclusion_error(shared: Theory, target: Theory, label: Seq<char>) -> Option<SGatError> {
    match first_missing(sort_names(shared.sorts@), sort_names(target.sorts@), 0) {
        Some(n) => Some(missing_error(true, label, n, target.name@)),
        None => match first_missing(op_names(shared.ops@), op_names(target.ops@), 0) {
            Some(n) => Some(missing_error(false, label, n, target.name@)),
            None => None,
        },
    }
}

fn missing_exec(sort: bool, label: &str, n: &String, target: &String) -> (e: GatError)
    ensures
        e@ == missing_error(sort, label@, n@, target@),
{
    proof {
        reveal_strlit(": shared sort `");
        reveal_strlit(": shared op `");
        reveal_strlit("` is not present in target theory `");
        reveal_strlit("`");
    }
    let mut msg = String::new();
    msg.append(label);
    if sort {
        msg.append(": shared sort `");
    } else {
        msg.append(": shared op `");
    }
    msg.append(n.as_str());
    msg.append("` is not present in target theory `");
    msg.append(target.as_str());
    msg.append("`");
    if sort {
        proof {
            assert(msg@ =~= label@ + ": shared sort `"@ + n@ + "` is not present in target theory `"@ + target@ + "`"@);
        }
        GatError::MissingSortMapping(msg)
    } else {
        proof {
            assert(msg@ =~= label@ + ": shared op `"@ + n@ + "` is not present in target theory `"@ + target@ + "`"@);
        }
        GatError::MissingOpMapping(msg)
    }
}

/// Each of `names` sent to itself, failing with the first name that
/// `present` lacks.
fn identity_names(names: &Vec<String>, present: &Vec<String>) -> (r: Result<RenameMap, String>)
    ensures
        match first_missing(crate::term::names_view(names@), crate::term::names_view(present@), 0) {
            Some(n) => r matches Err(x) && x@ == n,
            None => r matches Ok(m) && m@ == crate::morphism::identity_map(crate::term::names_view(names@))
                && entry_views(m.entries@) == identity_pairs(crate::term::names_view(names@)),
        },
{
    let ghost nv = crate::term::names_view(names@);
    let ghost pv = crate::term::names_view(present@);
    let mut m = RenameMap::new();
    let mut i: usize = 0;
    proof {
        assert(entry_views(m.entries@) =~= identity_pairs(nv.take(0)));
        assert(m@ =~= crate::morphism::identity_map(nv.take(0)));
    }
    while i < names.len()
        invariant
            nv == crate::term::names_view(names@),
            pv == crate::term::names_view(present@),
            i <= nv.len(),
            first_missing(nv, pv, i as int) == first_missing(nv, pv, 0),
            m@ == crate::morphism::identity_map(nv.take(i as int)),
            entry_views(m.entries@) == identity_pairs(nv.take(i as int)),
        decreases nv.len() - i,
    {
        let n = &names[i];
        proof {
            assert(nv[i as int] == n@);
        }
        if !crate::term::names_contain(present, n) {
            return Err(n.clone());
        }
        let ghost before = m.entries@;
        let k1 = n.clone();
        let k2 = n.clone();
        m.insert(k1, k2);
        proof {
            assert(entry_views(m.entries@) =~= entry_views(before).push((n@, n@)));
            assert(nv.take(i + 1) =~= nv.take(i as int).push(nv[i as int]));
            crate::morphism::lemma_identity_map_push(nv.take(i as int), nv[i as int]);
            assert(entry_views(m.entries@) =~= identity_pairs(nv.take(i + 1)));
        }
        i = i + 1;
    }
    proof {
        assert(nv.take(nv.len() as int) =~= nv);
    }
    Ok(m)
}

/// The inclusion of `shared` into `target` sending each shared sort and
/// operation to the one of the same name.
pub(crate) fn identity_inclusion(shared: &Theory, target: &Theory, label: &str) -> (r: Result<TheoryMorphism, GatError>)
    ensures
        match name_inclusion_error(*shared, *target, label@) {
            Some(e) => r matches Err(x) && x@ == e,
            None => r matches Ok(m) && is_name_inclusion(*shared, *target, label@, m),
        },
{
    let sort_map = match identity_names(&sort_name_list(shared), &sort_name_list(target)) {
        Ok(m) => m,
        Err(n) => {
            return Err(missing_exec(true, label, &n, &target.name));
        },
    };
    let op_map = match identity_names(&op_name_list(shared), &op_name_list(target)) {
        Ok(m) => m,
        Err(n) => {
            return Err(missing_exec(false, label, &n, &target.name));
        },
    };
    proof {
        reveal_strlit("_");
        reveal_strlit("_into_");
    }
    let mut name = String::new();
    name.append(label);
    name.append("_");
    name.append(shared.name.as_str());
    name.append("_into_");
    name.append(target.name.as_str());
    proof {
        assert(name@ =~= label@ + "_"@ + shared.name@ + "_into_"@ + target.name@);
    }
    Ok(TheoryMorphism::new(name.as_str(), shared.name.as_str(), target.name.as_str(), sort_map, op_map))
}

/// The pushout of `t1` and `t2` over `shared`, each shared sort and
/// operation included into both by name (a shared name that a theory
/// lacks is an error, checking `t1` first); the shared sorts and
/// operations are identified in the pushout.
pub fn pushout_by_name(t1: &Theory, t2: &Theory, shared: &Theory) -> (r: Result<ColimitResult, GatError>)
    ensures
        match name_inclusion_error(*shared, *t1, "i1"@) {
            Some(e) => r matches Err(x) && x@ == e,
            None => match name_inclusion_error(*shared, *t2, "i2"@) {
                Some(e) => r matches Err(x) && x@ == e,
                None => exists|i1: TheoryMorphism, i2: TheoryMorphism|
                    is_name_inclusion(*shared, *t1, "i1"@, i1) && is_name_inclusion(*shared, *t2, "i2"@, i2)
                        && colimit_outcome(*t1, *t2, i1, i2, r),
            },
        },
        r matches Ok(res) ==> (forall|s: Seq<char>| #[trigger] sort_names(shared.sorts@).contains(s)
            ==> res.inclusion1.sort_map@.contains_key(s) && res.inclusion2.sort_map@.contains_key(s)
                && res.inclusion1.sort_map@[s] == res.inclusion2.sort_map@[s]),
        r matches Ok(res) ==> (forall|o: Seq<char>| #[trigger] op_names(shared.ops@).contains(o)
            ==> res.inclusion1.op_map@.contains_key(o) && res.inclusion2.op_map@.contains_key(o)
                && res.inclusion1.op_map@[o] == res.inclusion2.op_map@[o]),
{
    let i1 = match identity_inclusion(shared, t1, "i1") {
        Ok(m) => m,
        Err(e) => {
            return Err(e);
        },
    };
    let i2 = match identity_inclusion(shared, t2, "i2") {
        Ok(m) => m,
        Err(e) => {
            return Err(e);
        },
    };
    let r = colimit(t1, t2, &i1, &i2);
    proof {
        if r is Ok {
            let res = r->Ok_0;
            assert forall|s: Seq<char>| #[trigger] sort_names(shared.sorts@).contains(s) implies res.inclusion1.sort_map@.contains_key(s)
                && res.inclusion2.sort_map@.contains_key(s) && res.inclusion1.sort_map@[s] == res.inclusion2.sort_map@[s] by {
                assert(i1.sort_map@.contains_key(s));
                assert(i2.sort_map@.contains_key(s));
                assert(composable(i1.sort_map@, res.inclusion1.sort_map@));
                assert(composable(i2.sort_map@, res.inclusion2.sort_map@));
            }
            assert forall|o: Seq<char>| #[trigger] op_names(shared.ops@).contains(o) implies res.inclusion1.op_map@.contains_key(o)
                && res.inclusion2.op_map@.contains_key(o) && res.inclusion1.op_map@[o] == res.inclusion2.op_map@[o] by {
                assert(i1.op_map@.contains_key(o));
                assert(i2.op_map@.contains_key(o));
                assert(composable(i1.op_map@, res.inclusion1.op_map@));
                assert(composable(i2.op_map@, res.inclusion2.op_map@));
            }
        }
    }
    r
}


// ---------------------------------------------------------------------------
// The pushout's own cocone
// ---------------------------------------------------------------------------

/// Every value of the map is its key.
pub open spec fn fixes_all(m: Map<Seq<char>, Seq<char>>) -> bool {
    forall|x: Seq<char>| #[trigger] m.contains_key(x) ==> m[x] == x
}

/// The renaming between two maps that each send their keys to
/// themselves does the same.
proof fn lemma_shared_rename_fixes(e1: Seq<(Seq<char>, Seq<char>)>, m2: Map<Seq<char>, Seq<char>>, i: int, acc: Map<Seq<char>, Seq<char>>)
    requires
        0 <= i,
        forall|j: int| 0 <= j < e1.len() ==> (#[trigger] e1[j]).1 == e1[j].0,
        fixes_all(m2),
        fixes_all(acc),
    ensures
        fixes_all(shared_rename_from(e1, m2, i, acc)),
    decreases (if i < e1.len() { e1.len() - i } else { 0 }) as nat,
{
    if i < e1.len() {
        let acc2 = if live_at(e1, i) && m2.contains_key(e1[i].0) {
            acc.insert(m2[e1[i].0], e1[i].1)
        } else {
            acc
        };
        assert(e1[i].1 == e1[i].0);
        lemma_shared_rename_fixes(e1, m2, i + 1, acc2);
    }
}

/// Along entries that each send a live key to itself, as `k` does, the
/// mediator grows by the identity on those keys.
proof fn lemma_mediate_identity(
    vs: Seq<(Seq<char>, Seq<char>)>,
    k: Map<Seq<char>, Seq<char>>,
    kind: Seq<char>,
    leg: Seq<char>,
    i: int,
    acc: Map<Seq<char>, Seq<char>>,
)
    requires
        0 <= i,
        forall|j: int| 0 <= j < vs.len() && live_at(vs, j) ==> k.contains_key((#[trigger] vs[j]).0) && k[vs[j].0] == vs[j].1
            && vs[j].1 == vs[j].0,
        fixes_all(acc),
    ensures
        mediate_from(vs, k, kind, leg, i, acc) matches Ok(m) && fixes_all(m) && (forall|x: Seq<char>|
            #[trigger] m.contains_key(x) <==> (acc.contains_key(x) || exists|j: int|
                i <= j < vs.len() && live_at(vs, j) && (#[trigger] vs[j]).0 == x)),
    decreases (if i < vs.len() { vs.len() - i } else { 0 }) as nat,
{
    if i < vs.len() {
        if !live_at(vs, i) {
            lemma_mediate_identity(vs, k, kind, leg, i + 1, acc);
            let m = mediate_from(vs, k, kind, leg, i, acc)->Ok_0;
            assert forall|x: Seq<char>| #[trigger] m.contains_key(x) <==> (acc.contains_key(x) || exists|j: int|
                i <= j < vs.len() && live_at(vs, j) && (#[trigger] vs[j]).0 == x) by {
                if exists|j: int| i <= j < vs.len() && live_at(vs, j) && (#[trigger] vs[j]).0 == x {
                    let j = choose|j: int| i <= j < vs.len() && live_at(vs, j) && (#[trigger] vs[j]).0 == x;
                    assert(j != i);
                }
            }
        } else {
            let t = vs[i].0;
            let acc2 = if acc.contains_key(t) { acc } else { acc.insert(t, t) };
            lemma_mediate_identity(vs, k, kind, leg, i + 1, acc2);
            let m = mediate_from(vs, k, kind, leg, i, acc)->Ok_0;
            assert forall|x: Seq<char>| #[trigger] m.contains_key(x) <==> (acc.contains_key(x) || exists|j: int|
                i <= j < vs.len() && live_at(vs, j) && (#[trigger] vs[j]).0 == x) by {
                if x == t {
                    assert(vs[i].0 == x);
                }
                if exists|j: int| i <= j < vs.len() && live_at(vs, j) && (#[trigger] vs[j]).0 == x {
                    let j = choose|j: int| i <= j < vs.len() && live_at(vs, j) && (#[trigger] vs[j]).0 == x;
                    if j != i {
                        assert(i + 1 <= j);
                    }
                }
            }
        }
    }
}

/// The keys of the live entries are the keys of the denoted map, and a
/// live entry's value is the map's value at its key.
pub proof fn lemma_live_entries(es: Seq<(String, String)>)
    ensures
        forall|x: Seq<char>| #[trigger] entries_map(es).contains_key(x) <==> exists|j: int|
            0 <= j < es.len() && live_at(entry_views(es), j) && (#[trigger] entry_views(es)[j]).0 == x,
        forall|j: int| 0 <= j < es.len() && live_at(entry_views(es), j) ==> entries_map(es).contains_key(
            (#[trigger] entry_views(es)[j]).0,
        ) && entries_map(es)[entry_views(es)[j].0] == entry_views(es)[j].1,
{
    let vs = entry_views(es);
    assert forall|j: int| 0 <= j < es.len() && live_at(vs, j) implies entries_map(es).contains_key((#[trigger] vs[j]).0)
        && entries_map(es)[vs[j].0] == vs[j].1 by {
        crate::maps::lemma_live_views(es, j);
        crate::maps::lemma_entries_map_last(es, j, es[j].0@);
    }
    assert forall|x: Seq<char>| #[trigger] entries_map(es).contains_key(x) implies exists|j: int|
        0 <= j < es.len() && live_at(vs, j) && (#[trigger] vs[j]).0 == x by {
        crate::maps::lemma_entries_map_live(es, x);
        let j = choose|j: int| 0 <= j < es.len() && #[trigger] es[j].0@ == x && crate::maps::entry_live(es, j);
        crate::maps::lemma_live_views(es, j);
        assert(vs[j].0 == x);
    }
}

/// The names of a list of sort models.
pub open spec fn sort_model_names(s: Seq<SSort>) -> Seq<Seq<char>> {
    Seq::new(s.len(), |i: int| s[i].name)
}

/// The names of a list of operation models.
pub open spec fn op_model_names(s: Seq<SOperation>) -> Seq<Seq<char>> {
    Seq::new(s.len(), |i: int| s[i].name)
}

/// Under a renaming that fixes its keys, the sorts a merge yields are
/// named by `acc`'s names and `t2s`'s, and every name of `t2s` from `k` on
/// is `t1`'s or the result's.
#[verifier::rlimit(100)]
#[verifier::spinoff_prover]
proof fn lemma_merge_sorts_names(t1: Theory, t2s: Seq<SSort>, sr: Map<Seq<char>, Seq<char>>, k: int, acc: Seq<SSort>)
    requires
        0 <= k,
        fixes_all(sr),
        merge_sorts_from(t1, t2s, sr, k, acc) is Ok,
    ensures
        ({
            let r = merge_sorts_from(t1, t2s, sr, k, acc)->Ok_0;
            &&& forall|x: Seq<char>| #[trigger] sort_model_names(r).contains(x) ==> sort_model_names(acc).contains(x)
                || sort_model_names(t2s).contains(x)
            &&& forall|x: Seq<char>| #[trigger] sort_model_names(acc).contains(x) ==> sort_model_names(r).contains(x)
            &&& forall|j: int| k <= j < t2s.len() ==> sort_names(t1.sorts@).contains((#[trigger] t2s[j]).name)
                || sort_model_names(r).contains(t2s[j].name)
        }),
    decreases (if k < t2s.len() { t2s.len() - k } else { 0 }) as nat,
{
    if k < t2s.len() {
        let s = t2s[k];
        assert(map_name(sr, s.name) == s.name);
        crate::theory::lemma_first_named(sort_names(t1.sorts@), s.name);
        match first_named(sort_names(t1.sorts@), s.name) {
            Some(i) => {
                lemma_merge_sorts_names(t1, t2s, sr, k + 1, acc);
                assert(sort_names(t1.sorts@).contains(s.name));
            },
            None => {
                let acc2 = acc.push(rename_sort_refs(s, sr));
                lemma_merge_sorts_names(t1, t2s, sr, k + 1, acc2);
                let r = merge_sorts_from(t1, t2s, sr, k, acc)->Ok_0;
                assert(sort_model_names(acc2) =~= sort_model_names(acc).push(s.name));
                assert(sort_model_names(acc2)[acc.len() as int] == s.name);
                assert forall|x: Seq<char>| #[trigger] sort_model_names(r).contains(x) implies sort_model_names(acc).contains(x)
                    || sort_model_names(t2s).contains(x) by {
                    if sort_model_names(acc2).contains(x) && !sort_model_names(acc).contains(x) {
                        let q = choose|q: int| 0 <= q < acc2.len() && sort_model_names(acc2)[q] == x;
                        if q < acc.len() {
                            assert(sort_model_names(acc)[q] == x);
                        } else {
                            assert(sort_model_names(t2s)[k] == x);
                        }
                    }
                }
                assert forall|x: Seq<char>| #[trigger] sort_model_names(acc).contains(x) implies sort_model_names(r).contains(x) by {
                    let q = choose|q: int| 0 <= q < acc.len() && sort_model_names(acc)[q] == x;
                    assert(sort_model_names(acc2)[q] == x);
                    assert(sort_model_names(acc2).contains(x));
                }
                assert(sort_model_names(acc2).contains(s.name));
                assert(sort_model_names(r).contains(s.name));
            },
        }
    }
}

/// Under a renaming that fixes its keys, the operations a merge yields
/// are named by `acc`'s names and `t2o`'s, and every name of `t2o` from
/// `k` on is `t1`'s or the result's.
#[verifier::rlimit(100)]
#[verifier::spinoff_prover]
proof fn lemma_merge_ops_names(
    t1: Theory,
    t2o: Seq<SOperation>,
    sr: Map<Seq<char>, Seq<char>>,
    or: Map<Seq<char>, Seq<char>>,
    k: int,
    acc: Seq<SOperation>,
)
    requires
        0 <= k,
        fixes_all(or),
        merge_ops_from(t1, t2o, sr, or, k, acc) is Ok,
    ensures
        ({
            let r = merge_ops_from(t1, t2o, sr, or, k, acc)->Ok_0;
            &&& forall|x: Seq<char>| #[trigger] op_model_names(r).contains(x) ==> op_model_names(acc).contains(x)
                || op_model_names(t2o).contains(x)
            &&& forall|x: Seq<char>| #[trigger] op_model_names(acc).contains(x) ==> op_model_names(r).contains(x)
            &&& forall|j: int| k <= j < t2o.len() ==> op_names(t1.ops@).contains((#[trigger] t2o[j]).name)
                || op_model_names(r).contains(t2o[j].name)
        }),
    decreases (if k < t2o.len() { t2o.len() - k } else { 0 }) as nat,
{
    if k < t2o.len() {
        let o = t2o[k];
        assert(map_name(or, o.name) == o.name);
        crate::theory::lemma_first_named(op_names(t1.ops@), o.name);
        match first_named(op_names(t1.ops@), o.name) {
            Some(i) => {
                lemma_merge_ops_names(t1, t2o, sr, or, k + 1, acc);
                assert(op_names(t1.ops@).contains(o.name));
            },
            None => {
                let acc2 = acc.push(rename_op_refs(o, sr));
                lemma_merge_ops_names(t1, t2o, sr, or, k + 1, acc2);
                let r = merge_ops_from(t1, t2o, sr, or, k, acc)->Ok_0;
                assert(op_model_names(acc2) =~= op_model_names(acc).push(o.name));
                assert(op_model_names(acc2)[acc.len() as int] == o.name);
                assert forall|x: Seq<char>| #[trigger] op_model_names(r).contains(x) implies op_model_names(acc).contains(x)
                    || op_model_names(t2o).contains(x) by {
                    if op_model_names(acc2).contains(x) && !op_model_names(acc).contains(x) {
                        let q = choose|q: int| 0 <= q < acc2.len() && op_model_names(acc2)[q] == x;
                        if q < acc.len() {
                            assert(op_model_names(acc)[q] == x);
                        } else {
                            assert(op_model_names(t2o)[k] == x);
                        }
                    }
                }
                assert forall|x: Seq<char>| #[trigger] op_model_names(acc).contains(x) implies op_model_names(r).contains(x) by {
                    let q = choose|q: int| 0 <= q < acc.len() && op_model_names(acc)[q] == x;
                    assert(op_model_names(acc2)[q] == x);
                    assert(op_model_names(acc2).contains(x));
                }
                assert(op_model_names(acc2).contains(o.name));
                assert(op_model_names(r).contains(o.name));
            },
        }
    }
}

/// A name list all of whose names `m` maps has no uncovered name.
proof fn lemma_all_covered(names: Seq<Seq<char>>, m: Map<Seq<char>, Seq<char>>, i: int)
    requires
        0 <= i,
        forall|x: Seq<char>| #[trigger] names.contains(x) ==> m.contains_key(x),
    ensures
        first_uncovered(names, m, i) is None,
    decreases (if i < names.len() { names.len() - i } else { 0 }) as nat,
{
    if i < names.len() {
        assert(names.contains(names[i]));
        lemma_all_covered(names, m, i + 1);
    }
}

/// The pushout's own cocone factors through the identity: checking the
/// universal property of a pushout by names against the pushout itself
/// and its own inclusions gives the mediator sending every sort and
/// operation of the pushout to itself.
pub proof fn lemma_pushout_identity_mediator(
    t1: Theory,
    t2: Theory,
    shared: Theory,
    i1: TheoryMorphism,
    i2: TheoryMorphism,
    r: ColimitResult,
)
    requires
        is_name_inclusion(shared, t1, "i1"@, i1),
        is_name_inclusion(shared, t2, "i2"@, i2),
        colimit_outcome(t1, t2, i1, i2, Ok(r)),
    ensures
        universal_outcome(r, r.theory, r.inclusion1, r.inclusion2) == Ok::<
            (Map<Seq<char>, Seq<char>>, Map<Seq<char>, Seq<char>>),
            SGatError,
        >((crate::morphism::identity_map(sort_names(r.theory.sorts@)), crate::morphism::identity_map(op_names(r.theory.ops@)))),
{
    let sr = shared_rename(i1.sort_map, i2.sort_map);
    let or = shared_rename(i1.op_map, i2.op_map);
    let e1s = entry_views(i1.sort_map.entries@);
    let e1o = entry_views(i1.op_map.entries@);
    assert forall|j: int| 0 <= j < e1s.len() implies (#[trigger] e1s[j]).1 == e1s[j].0 by {
        assert(e1s[j] == identity_pairs(sort_names(shared.sorts@))[j]);
    }
    assert forall|j: int| 0 <= j < e1o.len() implies (#[trigger] e1o[j]).1 == e1o[j].0 by {
        assert(e1o[j] == identity_pairs(op_names(shared.ops@))[j]);
    }
    lemma_shared_rename_fixes(e1s, i2.sort_map@, 0, Map::empty());
    lemma_shared_rename_fixes(e1o, i2.op_map@, 0, Map::empty());
    let pn = crate::colimit::colimit_name(t1.name@, t2.name@);
    let j1s = inclusion_map(sort_names(t1.sorts@), Map::empty());
    let j1o = inclusion_map(op_names(t1.ops@), Map::empty());
    let j2s = inclusion_map(sort_names(t2.sorts@), sr);
    let j2o = inclusion_map(op_names(t2.ops@), or);
    let c = pushout_components(t1, t2, sr, or)->Ok_0;
    assert(r.inclusion1.sort_map@ == j1s && r.inclusion1.op_map@ == j1o);
    assert(r.inclusion2.sort_map@ == j2s && r.inclusion2.op_map@ == j2o);
    assert(r.theory@.sorts == c.0 && r.theory@.ops == c.1 && r.theory@.name == pn);
    // The mediator on sorts.
    let vs1 = entry_views(r.inclusion1.sort_map.entries@);
    let vs2 = entry_views(r.inclusion2.sort_map.entries@);
    let vo1 = entry_views(r.inclusion1.op_map.entries@);
    let vo2 = entry_views(r.inclusion2.op_map.entries@);
    lemma_live_entries(r.inclusion1.sort_map.entries@);
    lemma_live_entries(r.inclusion2.sort_map.entries@);
    lemma_live_entries(r.inclusion1.op_map.entries@);
    lemma_live_entries(r.inclusion2.op_map.entries@);
    lemma_mediate_identity(vs1, j1s, "sort"@, "k1"@, 0, Map::empty());
    let s1 = mediate_from(vs1, j1s, "sort"@, "k1"@, 0, Map::empty())->Ok_0;
    lemma_mediate_identity(vs2, j2s, "sort"@, "k2"@, 0, s1);
    let s = mediate_from(vs2, j2s, "sort"@, "k2"@, 0, s1)->Ok_0;
    lemma_mediate_identity(vo1, j1o, "op"@, "k1"@, 0, Map::empty());
    let o1 = mediate_from(vo1, j1o, "op"@, "k1"@, 0, Map::empty())->Ok_0;
    lemma_mediate_identity(vo2, j2o, "op"@, "k2"@, 0, o1);
    let o = mediate_from(vo2, j2o, "op"@, "k2"@, 0, o1)->Ok_0;
    assert forall|x: Seq<char>| #[trigger] s.contains_key(x) <==> (j1s.contains_key(x) || j2s.contains_key(x)) by {}
    assert forall|x: Seq<char>| #[trigger] o.contains_key(x) <==> (j1o.contains_key(x) || j2o.contains_key(x)) by {}
    // The pushout's names are exactly those of the two theories.
    lemma_merge_sorts_names(t1, t2@.sorts, sr, 0, t1@.sorts);
    lemma_merge_ops_names(t1, t2@.ops, sr, or, 0, t1@.ops);
    assert(sort_model_names(t1@.sorts) =~= sort_names(t1.sorts@));
    assert(sort_model_names(t2@.sorts) =~= sort_names(t2.sorts@));
    assert(op_model_names(t1@.ops) =~= op_names(t1.ops@));
    assert(op_model_names(t2@.ops) =~= op_names(t2.ops@));
    assert(sort_model_names(c.0) =~= sort_names(r.theory.sorts@));
    assert(op_model_names(c.1) =~= op_names(r.theory.ops@));
    let ps = sort_names(r.theory.sorts@);
    let po = op_names(r.theory.ops@);
    assert forall|x: Seq<char>| #[trigger] ps.contains(x) <==> s.contains_key(x) by {
        if s.contains_key(x) && !sort_names(t1.sorts@).contains(x) {
            let j = choose|j: int| 0 <= j < sort_names(t2.sorts@).len() && sort_names(t2.sorts@)[j] == x;
            assert(t2@.sorts[j].name == x);
        }
    }
    assert forall|x: Seq<char>| #[trigger] po.contains(x) <==> o.contains_key(x) by {
        if o.contains_key(x) && !op_names(t1.ops@).contains(x) {
            let j = choose|j: int| 0 <= j < op_names(t2.ops@).len() && op_names(t2.ops@)[j] == x;
            assert(t2@.ops[j].name == x);
        }
    }
    lemma_all_covered(ps, s, 0);
    lemma_all_covered(po, o, 0);
    assert(s =~= crate::morphism::identity_map(ps));
    assert(o =~= crate::morphism::identity_map(po));
    assert(compose_maps(j1s, s) =~= j1s);
    assert(compose_maps(j1o, o) =~= j1o);
    assert(compose_maps(j2s, s) =~= j2s);
    assert(compose_maps(j2o, o) =~= j2o);
}


// ---------------------------------------------------------------------------
// The pushout by names, component by component
// ---------------------------------------------------------------------------

/// The renaming between two identity inclusions is defined on exactly the
/// names of the second that the first's live entries name.
proof fn lemma_shared_rename_dom(e1: Seq<(Seq<char>, Seq<char>)>, m2: Map<Seq<char>, Seq<char>>, i: int, acc: Map<Seq<char>, Seq<char>>)
    requires
        0 <= i,
        fixes_all(m2),
    ensures
        forall|x: Seq<char>| #[trigger] shared_rename_from(e1, m2, i, acc).contains_key(x) <==> (acc.contains_key(x) || (m2.contains_key(x)
            && exists|j: int| i <= j < e1.len() && live_at(e1, j) && (#[trigger] e1[j]).0 == x)),
    decreases (if i < e1.len() { e1.len() - i } else { 0 }) as nat,
{
    if i < e1.len() {
        let acc2 = if live_at(e1, i) && m2.contains_key(e1[i].0) {
            acc.insert(m2[e1[i].0], e1[i].1)
        } else {
            acc
        };
        lemma_shared_rename_dom(e1, m2, i + 1, acc2);
        let r = shared_rename_from(e1, m2, i, acc);
        assert(r == shared_rename_from(e1, m2, i + 1, acc2));
        if m2.contains_key(e1[i].0) {
            assert(m2[e1[i].0] == e1[i].0);
        }
        assert forall|x: Seq<char>| #[trigger] r.contains_key(x) <==> (acc.contains_key(x) || (m2.contains_key(x) && exists|j: int|
            i <= j < e1.len() && live_at(e1, j) && (#[trigger] e1[j]).0 == x)) by {
            let ex_i = exists|j: int| i <= j < e1.len() && live_at(e1, j) && (#[trigger] e1[j]).0 == x;
            let ex_n = exists|j: int| i + 1 <= j < e1.len() && live_at(e1, j) && (#[trigger] e1[j]).0 == x;
            if ex_i {
                let j = choose|j: int| i <= j < e1.len() && live_at(e1, j) && (#[trigger] e1[j]).0 == x;
                if j != i {
                    assert(i + 1 <= j && live_at(e1, j) && e1[j].0 == x);
                    assert(ex_n);
                }
            }
            if ex_n {
                let j = choose|j: int| i + 1 <= j < e1.len() && live_at(e1, j) && (#[trigger] e1[j]).0 == x;
                assert(i <= j && e1[j].0 == x);
                assert(ex_i);
            }
            if x == e1[i].0 && live_at(e1, i) {
                assert(e1[i].0 == x);
                assert(ex_i);
            }
            assert(ex_i <==> (ex_n || (live_at(e1, i) && e1[i].0 == x)));
            assert(acc2.contains_key(x) <==> (acc.contains_key(x) || (live_at(e1, i) && m2.contains_key(e1[i].0) && x == e1[i].0)));
            assert(r.contains_key(x) <==> (acc2.contains_key(x) || (m2.contains_key(x) && ex_n)));
        }
    }
}

/// A name list none of whose names is missing from `present`.
proof fn lemma_first_missing_none(names: Seq<Seq<char>>, present: Seq<Seq<char>>, i: int)
    requires
        0 <= i,
        first_missing(names, present, i) is None,
    ensures
        forall|j: int| i <= j < names.len() ==> present.contains(#[trigger] names[j]),
    decreases (if i < names.len() { names.len() - i } else { 0 }) as nat,
{
    if i < names.len() {
        lemma_first_missing_none(names, present, i + 1);
    }
}

/// Two maps that agree everywhere pass the cocone check on any keys.
proof fn lemma_cocone_none(keys: Seq<Seq<char>>, l: Map<Seq<char>, Seq<char>>, r: Map<Seq<char>, Seq<char>>, kind: Seq<char>, i: int)
    requires
        0 <= i,
        l == r,
    ensures
        cocone_check_from(keys, l, r, kind, i) is None,
    decreases (if i < keys.len() { keys.len() - i } else { 0 }) as nat,
{
    if i < keys.len() {
        lemma_cocone_none(keys, l, r, kind, i + 1);
    }
}

/// A renaming that fixes its keys leaves a sort expression alone.
proof fn lemma_rename_head_fixed(e: SSortExpr, m: Map<Seq<char>, Seq<char>>)
    requires
        fixes_all(m),
    ensures
        rename_head_by(e, m) == e,
{
}

/// Sorts merged under a renaming that fixes its keys and is defined on
/// the shared names merge as [`crate::colimit::merge_named`] says.
proof fn lemma_merge_sorts_named(t1: Theory, t2s: Seq<SSort>, sr: Map<Seq<char>, Seq<char>>, shared: Theory, k: int, acc: Seq<SSort>)
    requires
        0 <= k,
        fixes_all(sr),
        forall|x: Seq<char>| #[trigger] sr.contains_key(x) <==> sort_names(shared.sorts@).contains(x),
    ensures
        merge_sorts_from(t1, t2s, sr, k, acc) == match crate::colimit::merge_named(
            crate::colimit::views(t1.sorts@),
            t2s,
            crate::colimit::sort_name_of(),
            crate::colimit::has_sort_named(shared),
            crate::colimit::sort_compat(),
            k,
        ) {
            Ok(x) => Ok::<Seq<SSort>, SGatError>(acc + x),
            Err(n) => Err(SGatError::SortConflict { name: n }),
        },
    decreases (if k < t2s.len() { t2s.len() - k } else { 0 }) as nat,
{
    let base = crate::colimit::views(t1.sorts@);
    assert(Seq::new(base.len(), |j: int| crate::colimit::sort_name_of()(base[j])) =~= sort_names(t1.sorts@));
    if k < t2s.len() {
        let s = t2s[k];
        crate::theory::lemma_first_named(sort_names(shared.sorts@), s.name);
        crate::theory::lemma_first_named(sort_names(t1.sorts@), s.name);
        assert(map_name(sr, s.name) == s.name);
        let ren = rename_sort_refs(s, sr);
        assert forall|j: int| 0 <= j < s.params.len() implies rename_head_by(#[trigger] s.params[j].1, sr) == s.params[j].1 by {
            lemma_rename_head_fixed(s.params[j].1, sr);
        }
        assert(ren.params =~= s.params);
        assert(ren == s);
        match first_named(sort_names(t1.sorts@), s.name) {
            Some(i) => {
                lemma_merge_sorts_named(t1, t2s, sr, shared, k + 1, acc);
                assert(base[i] == t1.sorts@[i]@);
            },
            None => {
                lemma_merge_sorts_named(t1, t2s, sr, shared, k + 1, acc.push(s));
                match crate::colimit::merge_named(base, t2s, crate::colimit::sort_name_of(), crate::colimit::has_sort_named(shared), crate::colimit::sort_compat(), k + 1) {
                    Ok(x) => {
                        assert(acc.push(s) + x =~= acc + (seq![s] + x));
                    },
                    Err(n) => {},
                }
            },
        }
    } else {
        assert(acc + Seq::<SSort>::empty() =~= acc);
    }
}

/// Operations merged under renamings that fix their keys, the operation
/// renaming defined on the shared names, merge as
/// [`crate::colimit::merge_named`] says.
proof fn lemma_merge_ops_named(
    t1: Theory,
    t2o: Seq<SOperation>,
    sr: Map<Seq<char>, Seq<char>>,
    or: Map<Seq<char>, Seq<char>>,
    shared: Theory,
    k: int,
    acc: Seq<SOperation>,
)
    requires
        0 <= k,
        fixes_all(sr),
        fixes_all(or),
        forall|x: Seq<char>| #[trigger] or.contains_key(x) <==> op_names(shared.ops@).contains(x),
    ensures
        merge_ops_from(t1, t2o, sr, or, k, acc) == match crate::colimit::merge_named(
            crate::colimit::views(t1.ops@),
            t2o,
            crate::colimit::op_name_of(),
            crate::colimit::has_op_named(shared),
            crate::colimit::op_compat(),
            k,
        ) {
            Ok(x) => Ok::<Seq<SOperation>, SGatError>(acc + x),
            Err(n) => Err(SGatError::OpConflict { name: n }),
        },
    decreases (if k < t2o.len() { t2o.len() - k } else { 0 }) as nat,
{
    let base = crate::colimit::views(t1.ops@);
    assert(Seq::new(base.len(), |j: int| crate::colimit::op_name_of()(base[j])) =~= op_names(t1.ops@));
    if k < t2o.len() {
        let o = t2o[k];
        crate::theory::lemma_first_named(op_names(shared.ops@), o.name);
        crate::theory::lemma_first_named(op_names(t1.ops@), o.name);
        assert(map_name(or, o.name) == o.name);
        let ren = rename_op_refs(o, sr);
        assert forall|j: int| 0 <= j < o.inputs.len() implies rename_head_by(#[trigger] o.inputs[j].1, sr) == o.inputs[j].1 by {
            lemma_rename_head_fixed(o.inputs[j].1, sr);
        }
        lemma_rename_head_fixed(o.output, sr);
        assert(ren.inputs =~= o.inputs);
        assert(ren == o);
        match first_named(op_names(t1.ops@), o.name) {
            Some(i) => {
                lemma_merge_ops_named(t1, t2o, sr, or, shared, k + 1, acc);
                assert(base[i] == t1.ops@[i]@);
            },
            None => {
                lemma_merge_ops_named(t1, t2o, sr, or, shared, k + 1, acc.push(o));
                match crate::colimit::merge_named(base, t2o, crate::colimit::op_name_of(), crate::colimit::has_op_named(shared), crate::colimit::op_compat(), k + 1) {
                    Ok(x) => {
                        assert(acc.push(o) + x =~= acc + (seq![o] + x));
                    },
                    Err(n) => {},
                }
            },
        }
    } else {
        assert(acc + Seq::<SOperation>::empty() =~= acc);
    }
}

/// Equations merged under an operation renaming that fixes its keys
/// merge as [`crate::colimit::merge_named`] says, nothing skipped.
proof fn lemma_merge_eqs_named(t1: Theory, t2e: Seq<SEquation>, or: Map<Seq<char>, Seq<char>>, k: int, acc: Seq<SEquation>)
    requires
        0 <= k,
        fixes_all(or),
    ensures
        merge_eqs_from(t1, t2e, or, k, acc) == match crate::colimit::merge_named(
            crate::colimit::views(t1.eqs@),
            t2e,
            crate::colimit::eq_name_of(),
            crate::colimit::skip_none(),
            crate::colimit::eq_compat(),
            k,
        ) {
            Ok(x) => Ok::<Seq<SEquation>, SGatError>(acc + x),
            Err(n) => Err(SGatError::EqConflict { name: n }),
        },
    decreases (if k < t2e.len() { t2e.len() - k } else { 0 }) as nat,
{
    let base = crate::colimit::views(t1.eqs@);
    assert(Seq::new(base.len(), |j: int| crate::colimit::eq_name_of()(base[j])) =~= eq_names(t1.eqs@));
    if k < t2e.len() {
        let e = t2e[k];
        crate::eq::lemma_rename_ops_fixed(e.lhs, or);
        crate::eq::lemma_rename_ops_fixed(e.rhs, or);
        assert(renamed_equation(e, or) == e);
        match first_named(eq_names(t1.eqs@), e.name) {
            Some(i) => {
                crate::theory::lemma_first_named(eq_names(t1.eqs@), e.name);
                lemma_merge_eqs_named(t1, t2e, or, k + 1, acc);
                assert(base[i] == t1.eqs@[i]@);
            },
            None => {
                lemma_merge_eqs_named(t1, t2e, or, k + 1, acc.push(e));
                match crate::colimit::merge_named(base, t2e, crate::colimit::eq_name_of(), crate::colimit::skip_none(), crate::colimit::eq_compat(), k + 1) {
                    Ok(x) => {
                        assert(acc.push(e) + x =~= acc + (seq![e] + x));
                    },
                    Err(n) => {},
                }
            },
        }
    } else {
        assert(acc + Seq::<SEquation>::empty() =~= acc);
    }
}

/// Directed equations merged under an operation renaming that fixes its
/// keys merge as [`crate::colimit::merge_named`] says, nothing skipped.
proof fn lemma_merge_rules_named(t1: Theory, t2d: Seq<SDirectedEquation>, or: Map<Seq<char>, Seq<char>>, k: int, acc: Seq<SDirectedEquation>)
    requires
        0 <= k,
        fixes_all(or),
    ensures
        merge_rules_from(t1, t2d, or, k, acc) == match crate::colimit::merge_named(
            crate::colimit::views(t1.directed_eqs@),
            t2d,
            crate::colimit::rule_name_of(),
            crate::colimit::skip_none(),
            crate::colimit::rule_compat(),
            k,
        ) {
            Ok(x) => Ok::<Seq<SDirectedEquation>, SGatError>(acc + x),
            Err(n) => Err(SGatError::DirectedEqConflict { name: n }),
        },
    decreases (if k < t2d.len() { t2d.len() - k } else { 0 }) as nat,
{
    let base = crate::colimit::views(t1.directed_eqs@);
    assert(Seq::new(base.len(), |j: int| crate::colimit::rule_name_of()(base[j])) =~= directed_eq_names(t1.directed_eqs@));
    if k < t2d.len() {
        let d = t2d[k];
        crate::eq::lemma_rename_ops_fixed(d.lhs, or);
        crate::eq::lemma_rename_ops_fixed(d.rhs, or);
        assert(renamed_rule(d, or) == d);
        match first_named(directed_eq_names(t1.directed_eqs@), d.name) {
            Some(i) => {
                crate::theory::lemma_first_named(directed_eq_names(t1.directed_eqs@), d.name);
                lemma_merge_rules_named(t1, t2d, or, k + 1, acc);
                assert(base[i] == t1.directed_eqs@[i]@);
            },
            None => {
                lemma_merge_rules_named(t1, t2d, or, k + 1, acc.push(d));
                match crate::colimit::merge_named(base, t2d, crate::colimit::rule_name_of(), crate::colimit::skip_none(), crate::colimit::rule_compat(), k + 1) {
                    Ok(x) => {
                        assert(acc.push(d) + x =~= acc + (seq![d] + x));
                    },
                    Err(n) => {},
                }
            },
        }
    } else {
        assert(acc + Seq::<SDirectedEquation>::empty() =~= acc);
    }
}

/// Policies merge as [`crate::colimit::merge_named`] says, nothing
/// skipped.
proof fn lemma_merge_policies_named(t1: Theory, t2p: Seq<SPolicy>, k: int, acc: Seq<SPolicy>)
    requires
        0 <= k,
    ensures
        merge_policies_from(t1, t2p, k, acc) == match crate::colimit::merge_named(
            crate::colimit::views(t1.policies@),
            t2p,
            crate::colimit::policy_name_of(),
            crate::colimit::skip_none(),
            crate::colimit::policy_compat(),
            k,
        ) {
            Ok(x) => Ok::<Seq<SPolicy>, SGatError>(acc + x),
            Err(n) => Err(SGatError::PolicyConflict { name: n }),
        },
    decreases (if k < t2p.len() { t2p.len() - k } else { 0 }) as nat,
{
    let base = crate::colimit::views(t1.policies@);
    assert(Seq::new(base.len(), |j: int| crate::colimit::policy_name_of()(base[j])) =~= policy_names(t1.policies@));
    if k < t2p.len() {
        let p = t2p[k];
        match first_named(policy_names(t1.policies@), p.name) {
            Some(i) => {
                crate::theory::lemma_first_named(policy_names(t1.policies@), p.name);
                lemma_merge_policies_named(t1, t2p, k + 1, acc);
                assert(base[i] == t1.policies@[i]@);
            },
            None => {
                lemma_merge_policies_named(t1, t2p, k + 1, acc.push(p));
                match crate::colimit::merge_named(base, t2p, crate::colimit::policy_name_of(), crate::colimit::skip_none(), crate::colimit::policy_compat(), k + 1) {
                    Ok(x) => {
                        assert(acc.push(p) + x =~= acc + (seq![p] + x));
                    },
                    Err(n) => {},
                }
            },
        }
    } else {
        assert(acc + Seq::<SPolicy>::empty() =~= acc);
    }
}


/// The renaming between two inclusions by names of `names` is the
/// identity on `names`.
proof fn lemma_name_inclusion_rename(names: Seq<Seq<char>>, m1: RenameMap, m2: RenameMap)
    requires
        entry_views(m1.entries@) == identity_pairs(names),
        m1@ == crate::morphism::identity_map(names),
        m2@ == crate::morphism::identity_map(names),
    ensures
        fixes_all(shared_rename(m1, m2)),
        forall|x: Seq<char>| #[trigger] shared_rename(m1, m2).contains_key(x) <==> names.contains(x),
{
    let e1 = entry_views(m1.entries@);
    assert forall|j: int| 0 <= j < e1.len() implies (#[trigger] e1[j]).1 == e1[j].0 by {
        assert(e1[j] == identity_pairs(names)[j]);
    }
    lemma_shared_rename_fixes(e1, m2@, 0, Map::empty());
    lemma_shared_rename_dom(e1, m2@, 0, Map::empty());
    lemma_live_entries(m1.entries@);
    assert forall|x: Seq<char>| #[trigger] shared_rename(m1, m2).contains_key(x) <==> names.contains(x) by {
        assert(m1@.contains_key(x) <==> names.contains(x));
    }
}

/// The pushout by names, as [`crate::colimit::colimit_by_name_spec`]
/// states it, is the pushout that [`colimit`] computes over the identity
/// inclusions of the shared theory: the same error, or a pushout theory
/// with the same components, named `T1_T2_colimit` and extending nothing.
pub proof fn lemma_colimit_by_name_is_pushout(
    t1: Theory,
    t2: Theory,
    shared: Theory,
    i1: TheoryMorphism,
    i2: TheoryMorphism,
    r: Result<ColimitResult, GatError>,
)
    requires
        name_inclusion_error(shared, t1, "i1"@) is None,
        name_inclusion_error(shared, t2, "i2"@) is None,
        is_name_inclusion(shared, t1, "i1"@, i1),
        is_name_inclusion(shared, t2, "i2"@, i2),
        colimit_outcome(t1, t2, i1, i2, r),
    ensures
        match crate::colimit::colimit_by_name_spec(t1, t2, shared) {
            Ok(c) => r matches Ok(res) && res.theory@ == (STheory {
                name: crate::colimit::colimit_name(t1.name@, t2.name@),
                extends: Seq::empty(),
                sorts: c.0,
                ops: c.1,
                eqs: c.2,
                directed_eqs: c.3,
                policies: c.4,
            }),
            Err(e) => r matches Err(x) && x@ == e,
        },
{
    let ns = sort_names(shared.sorts@);
    let no = op_names(shared.ops@);
    lemma_name_inclusion_rename(ns, i1.sort_map, i2.sort_map);
    lemma_name_inclusion_rename(no, i1.op_map, i2.op_map);
    let sr = shared_rename(i1.sort_map, i2.sort_map);
    let or = shared_rename(i1.op_map, i2.op_map);
    assert(crate::colimit::views(t1.sorts@) =~= t1@.sorts);
    assert(crate::colimit::views(t2.sorts@) =~= t2@.sorts);
    assert(crate::colimit::views(t1.ops@) =~= t1@.ops);
    assert(crate::colimit::views(t2.ops@) =~= t2@.ops);
    assert(crate::colimit::views(t1.eqs@) =~= t1@.eqs);
    assert(crate::colimit::views(t2.eqs@) =~= t2@.eqs);
    assert(crate::colimit::views(t1.directed_eqs@) =~= t1@.directed_eqs);
    assert(crate::colimit::views(t2.directed_eqs@) =~= t2@.directed_eqs);
    assert(crate::colimit::views(t1.policies@) =~= t1@.policies);
    assert(crate::colimit::views(t2.policies@) =~= t2@.policies);
    lemma_merge_sorts_named(t1, t2@.sorts, sr, shared, 0, t1@.sorts);
    lemma_merge_ops_named(t1, t2@.ops, sr, or, shared, 0, t1@.ops);
    lemma_merge_eqs_named(t1, t2@.eqs, or, 0, t1@.eqs);
    lemma_merge_rules_named(t1, t2@.directed_eqs, or, 0, t1@.directed_eqs);
    lemma_merge_policies_named(t1, t2@.policies, 0, t1@.policies);
    // Both inclusions compose with the pushout's and agree.
    lemma_first_missing_none(ns, sort_names(t1.sorts@), 0);
    lemma_first_missing_none(no, op_names(t1.ops@), 0);
    lemma_first_missing_none(ns, sort_names(t2.sorts@), 0);
    lemma_first_missing_none(no, op_names(t2.ops@), 0);
    let j1s = inclusion_map(sort_names(t1.sorts@), Map::empty());
    let j1o = inclusion_map(op_names(t1.ops@), Map::empty());
    let j2s = inclusion_map(sort_names(t2.sorts@), sr);
    let j2o = inclusion_map(op_names(t2.ops@), or);
    assert forall|a: Seq<char>| #[trigger] i1.sort_map@.contains_key(a) implies j1s.contains_key(i1.sort_map@[a]) by {
        let j = choose|j: int| 0 <= j < ns.len() && ns[j] == a;
        assert(sort_names(t1.sorts@).contains(ns[j]));
    }
    assert forall|a: Seq<char>| #[trigger] i1.op_map@.contains_key(a) implies j1o.contains_key(i1.op_map@[a]) by {
        let j = choose|j: int| 0 <= j < no.len() && no[j] == a;
        assert(op_names(t1.ops@).contains(no[j]));
    }
    assert forall|a: Seq<char>| #[trigger] i2.sort_map@.contains_key(a) implies j2s.contains_key(i2.sort_map@[a]) by {
        let j = choose|j: int| 0 <= j < ns.len() && ns[j] == a;
        assert(sort_names(t2.sorts@).contains(ns[j]));
    }
    assert forall|a: Seq<char>| #[trigger] i2.op_map@.contains_key(a) implies j2o.contains_key(i2.op_map@[a]) by {
        let j = choose|j: int| 0 <= j < no.len() && no[j] == a;
        assert(op_names(t2.ops@).contains(no[j]));
    }
    let ls = compose_maps(i1.sort_map@, j1s);
    let rs = compose_maps(i2.sort_map@, j2s);
    let lo = compose_maps(i1.op_map@, j1o);
    let ro = compose_maps(i2.op_map@, j2o);
    assert forall|a: Seq<char>| ls.contains_key(a) implies #[trigger] ls[a] == rs[a] by {
        assert(map_name(sr, a) == a);
    }
    assert forall|a: Seq<char>| lo.contains_key(a) implies #[trigger] lo[a] == ro[a] by {
        assert(map_name(or, a) == a);
    }
    assert(ls =~= rs);
    assert(lo =~= ro);
    lemma_cocone_none(live_keys(entry_views(i1.sort_map.entries@), 0), ls, rs, "sort"@, 0);
    lemma_cocone_none(live_keys(entry_views(i1.op_map.entries@), 0), lo, ro, "op"@, 0);
}

} // verus!
