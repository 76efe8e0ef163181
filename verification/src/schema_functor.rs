//! Endofunctors on theories: constraints that select theories and
//! transforms that rewrite them.
use vstd::prelude::*;
use vstd::string::*;

use crate::eq::{DirectedEquation, Equation, SDirectedEquation, SEquation};
use crate::error::{GatError, SGatError};
use crate::morphism::TheoryMorphism;
use crate::op::{Operation, SOperation};
use crate::eq::rename_ops_spec;
use crate::maps::{RenameMap, entry_views, live_at, map_name};
use crate::sort::{CoercionClass, SSort, SSortExpr, Sort, SortExpr, SortKind, SortParam, ValueKind};
use crate::term::{lemma_app_view, lemma_case_view, view_branches, view_terms};
use crate::term::{SBranch, STerm, Term};
use crate::theory::{ConflictPolicy, SPolicy, STheory, Theory};

verus! {

/// A predicate on theories: the precondition of a transform.
#[derive(Debug)]
pub enum TheoryConstraint {
    /// Every theory.
    Unconstrained,
    /// A sort with this name is declared.
    HasSort(String),
    /// An operation with this name is declared.
    HasOp(String),
    /// An equation with this name is declared.
    HasEquation(String),
    /// A directed equation with this name is declared.
    HasDirectedEq(String),
    /// A value sort of this kind is declared.
    HasValSort(ValueKind),
    /// A coercion sort between these kinds is declared.
    HasCoercion {
        /// The source kind.
        from: ValueKind,
        /// The target kind.
        to: ValueKind,
    },
    /// A merger sort for this kind is declared.
    HasMerger(ValueKind),
    /// A policy with this name is declared.
    HasPolicy(String),
    /// Every constraint holds.
    All(Vec<TheoryConstraint>),
    /// Some constraint holds.
    Any(Vec<TheoryConstraint>),
    /// The constraint does not hold.
    Not(Box<TheoryConstraint>),
}

/// The names of the sorts of a theory model.
pub open spec fn model_sort_names(t: STheory) -> Seq<Seq<char>> {
    Seq::new(t.sorts.len(), |i: int| t.sorts[i].name)
}

/// The names of the operations of a theory model.
pub open spec fn model_op_names(t: STheory) -> Seq<Seq<char>> {
    Seq::new(t.ops.len(), |i: int| t.ops[i].name)
}

/// The names of the equations of a theory model.
pub open spec fn model_eq_names(t: STheory) -> Seq<Seq<char>> {
    Seq::new(t.eqs.len(), |i: int| t.eqs[i].name)
}

/// The names of the directed equations of a theory model.
pub open spec fn model_rule_names(t: STheory) -> Seq<Seq<char>> {
    Seq::new(t.directed_eqs.len(), |i: int| t.directed_eqs[i].name)
}

/// The names of the policies of a theory model.
pub open spec fn model_policy_names(t: STheory) -> Seq<Seq<char>> {
    Seq::new(t.policies.len(), |i: int| t.policies[i].name)
}

/// Whether a sort kind is a coercion between `from` and `to`.
pub open spec fn is_coercion_between(k: SortKind, from: ValueKind, to: ValueKind) -> bool {
    match k {
        SortKind::Coercion { from: f, to: t, .. } => f == from && t == to,
        _ => false,
    }
}

/// Whether a theory model satisfies a constraint.
pub open spec fn constraint_holds(c: TheoryConstraint, t: STheory) -> bool
    decreases c,
{
    match c {
        TheoryConstraint::Unconstrained => true,
        TheoryConstraint::HasSort(n) => model_sort_names(t).contains(n@),
        TheoryConstraint::HasOp(n) => model_op_names(t).contains(n@),
        TheoryConstraint::HasEquation(n) => model_eq_names(t).contains(n@),
        TheoryConstraint::HasDirectedEq(n) => model_rule_names(t).contains(n@),
        TheoryConstraint::HasValSort(vk) => exists|i: int| 0 <= i < t.sorts.len() && #[trigger] t.sorts[i].kind == SortKind::Val(vk),
        TheoryConstraint::HasCoercion { from, to } => exists|i: int|
            0 <= i < t.sorts.len() && is_coercion_between(#[trigger] t.sorts[i].kind, from, to),
        TheoryConstraint::HasMerger(vk) => exists|i: int| 0 <= i < t.sorts.len() && #[trigger] t.sorts[i].kind == SortKind::Merger(vk),
        TheoryConstraint::HasPolicy(n) => model_policy_names(t).contains(n@),
        TheoryConstraint::All(cs) => all_hold(cs@, t),
        TheoryConstraint::Any(cs) => any_holds(cs@, t),
        TheoryConstraint::Not(b) => !constraint_holds(*b, t),
    }
}

/// Whether every constraint of a list holds.
pub open spec fn all_hold(cs: Seq<TheoryConstraint>, t: STheory) -> bool
    decreases cs,
{
    if cs.len() == 0 {
        true
    } else {
        all_hold(cs.drop_last(), t) && constraint_holds(cs.last(), t)
    }
}

/// Whether some constraint of a list holds.
pub open spec fn any_holds(cs: Seq<TheoryConstraint>, t: STheory) -> bool
    decreases cs,
{
    if cs.len() == 0 {
        false
    } else {
        any_holds(cs.drop_last(), t) || constraint_holds(cs.last(), t)
    }
}


impl TheoryConstraint {
    /// Whether `theory` satisfies this constraint.
    #[verifier::loop_isolation(false)]
    pub fn satisfied_by(&self, theory: &Theory) -> (r: bool)
        ensures
            r == constraint_holds(*self, theory@),
        decreases self,
    {
        let ghost t = theory@;
        match self {
            TheoryConstraint::Unconstrained => true,
            TheoryConstraint::HasSort(n) => {
                let mut i: usize = 0;
                while i < theory.sorts.len()
                    invariant
                        t == theory@,
                        i <= theory.sorts@.len(),
                        forall|j: int| 0 <= j < i ==> model_sort_names(t)[j] != n@,
                    decreases theory.sorts@.len() - i,
                {
                    if theory.sorts[i].name == *n {
                        assert(model_sort_names(t)[i as int] == n@);
                        return true;
                    }
                    i = i + 1;
                }
                false
            },
            TheoryConstraint::HasOp(n) => {
                let mut i: usize = 0;
                while i < theory.ops.len()
                    invariant
                        t == theory@,
                        i <= theory.ops@.len(),
                        forall|j: int| 0 <= j < i ==> model_op_names(t)[j] != n@,
                    decreases theory.ops@.len() - i,
                {
                    if theory.ops[i].name == *n {
                        assert(model_op_names(t)[i as int] == n@);
                        return true;
                    }
                    i = i + 1;
                }
                false
            },
            TheoryConstraint::HasEquation(n) => {
                let mut i: usize = 0;
                while i < theory.eqs.len()
                    invariant
                        t == theory@,
                        i <= theory.eqs@.len(),
                        forall|j: int| 0 <= j < i ==> model_eq_names(t)[j] != n@,
                    decreases theory.eqs@.len() - i,
                {
                    if theory.eqs[i].name == *n {
                        assert(model_eq_names(t)[i as int] == n@);
                        return true;
                    }
                    i = i + 1;
                }
                false
            },
            TheoryConstraint::HasDirectedEq(n) => {
                let mut i: usize = 0;
                while i < theory.directed_eqs.len()
                    invariant
                        t == theory@,
                        i <= theory.directed_eqs@.len(),
                        forall|j: int| 0 <= j < i ==> model_rule_names(t)[j] != n@,
                    decreases theory.directed_eqs@.len() - i,
                {
                    if theory.directed_eqs[i].name == *n {
                        assert(model_rule_names(t)[i as int] == n@);
                        return true;
                    }
                    i = i + 1;
                }
                false
            },
            TheoryConstraint::HasPolicy(n) => {
                let mut i: usize = 0;
                while i < theory.policies.len()
                    invariant
                        t == theory@,
                        i <= theory.policies@.len(),
                        forall|j: int| 0 <= j < i ==> model_policy_names(t)[j] != n@,
                    decreases theory.policies@.len() - i,
                {
                    if theory.policies[i].name == *n {
                        assert(model_policy_names(t)[i as int] == n@);
                        return true;
                    }
                    i = i + 1;
                }
                false
            },
            TheoryConstraint::HasValSort(vk) => {
                let mut i: usize = 0;
                while i < theory.sorts.len()
                    invariant
                        t == theory@,
                        i <= theory.sorts@.len(),
                        forall|j: int| 0 <= j < i ==> t.sorts[j].kind != SortKind::Val(*vk),
                    decreases theory.sorts@.len() - i,
                {
                    if theory.sorts[i].kind == SortKind::Val(*vk) {
                        assert(t.sorts[i as int].kind == SortKind::Val(*vk));
                        return true;
                    }
                    i = i + 1;
                }
                false
            },
            TheoryConstraint::HasMerger(vk) => {
                let mut i: usize = 0;
                while i < theory.sorts.len()
                    invariant
                        t == theory@,
                        i <= theory.sorts@.len(),
                        forall|j: int| 0 <= j < i ==> t.sorts[j].kind != SortKind::Merger(*vk),
                    decreases theory.sorts@.len() - i,
                {
                    if theory.sorts[i].kind == SortKind::Merger(*vk) {
                        assert(t.sorts[i as int].kind == SortKind::Merger(*vk));
                        return true;
                    }
                    i = i + 1;
                }
                false
            },
            TheoryConstraint::HasCoercion { from, to } => {
                let mut i: usize = 0;
                while i < theory.sorts.len()
                    invariant
                        t == theory@,
                        i <= theory.sorts@.len(),
                        forall|j: int| 0 <= j < i ==> !is_coercion_between(t.sorts[j].kind, *from, *to),
                    decreases theory.sorts@.len() - i,
                {
                    let hit = match theory.sorts[i].kind {
                        SortKind::Coercion { from: f, to: g, .. } => f == *from && g == *to,
                        _ => false,
                    };
                    if hit {
                        assert(is_coercion_between(t.sorts[i as int].kind, *from, *to));
                        return true;
                    }
                    i = i + 1;
                }
                false
            },
            TheoryConstraint::All(cs) => {
                let mut i: usize = 0;
                while i < cs.len()
                    invariant
                        t == theory@,
                        i <= cs@.len(),
                        all_hold(cs@.take(i as int), t),
                        forall|j: int| 0 <= j < cs@.len() ==> decreases_to!(*self => cs@[j]),
                    decreases cs@.len() - i,
                {
                    proof {
                        assert(cs@.take(i + 1).drop_last() =~= cs@.take(i as int));
                    }
                    if !cs[i].satisfied_by(theory) {
                        proof {
                            lemma_all_hold_prefix(cs@, t, i + 1);
                        }
                        return false;
                    }
                    i = i + 1;
                }
                proof {
                    assert(cs@.take(cs@.len() as int) =~= cs@);
                }
                true
            },
            TheoryConstraint::Any(cs) => {
                let mut i: usize = 0;
                while i < cs.len()
                    invariant
                        t == theory@,
                        i <= cs@.len(),
                        !any_holds(cs@.take(i as int), t),
                        forall|j: int| 0 <= j < cs@.len() ==> decreases_to!(*self => cs@[j]),
                    decreases cs@.len() - i,
                {
                    proof {
                        assert(cs@.take(i + 1).drop_last() =~= cs@.take(i as int));
                    }
                    if cs[i].satisfied_by(theory) {
                        proof {
                            lemma_any_holds_prefix(cs@, t, i + 1);
                        }
                        return true;
                    }
                    i = i + 1;
                }
                proof {
                    assert(cs@.take(cs@.len() as int) =~= cs@);
                }
                false
            },
            TheoryConstraint::Not(b) => !b.satisfied_by(theory),
        }
    }
}

proof fn lemma_all_hold_prefix(cs: Seq<TheoryConstraint>, t: STheory, k: int)
    requires
        0 <= k <= cs.len(),
        !all_hold(cs.take(k), t),
    ensures
        !all_hold(cs, t),
    decreases cs.len() - k,
{
    if k < cs.len() {
        assert(cs.take(k + 1).drop_last() =~= cs.take(k));
        lemma_all_hold_prefix(cs, t, k + 1);
    } else {
        assert(cs.take(k) =~= cs);
    }
}

proof fn lemma_any_holds_prefix(cs: Seq<TheoryConstraint>, t: STheory, k: int)
    requires
        0 <= k <= cs.len(),
        any_holds(cs.take(k), t),
    ensures
        any_holds(cs, t),
    decreases cs.len() - k,
{
    if k < cs.len() {
        assert(cs.take(k + 1).drop_last() =~= cs.take(k));
        lemma_any_holds_prefix(cs, t, k + 1);
    } else {
        assert(cs.take(k) =~= cs);
    }
}


// ---------------------------------------------------------------------------
// Operations used by terms
// ---------------------------------------------------------------------------

/// Whether every operation a term applies, and every constructor its case
/// branches name, is among `names`.
pub open spec fn ops_within(t: STerm, names: Seq<Seq<char>>) -> bool
    decreases t, 1nat,
{
    match t {
        STerm::Var(_) => true,
        STerm::Hole { .. } => true,
        STerm::App { op, args } => names.contains(op) && args_within(args, names, 0),
        STerm::Case { scrutinee, branches } => ops_within(*scrutinee, names) && branches_within(branches, names, 0),
        STerm::Let { bound, body, .. } => ops_within(*bound, names) && ops_within(*body, names),
    }
}

/// [`ops_within`] for the terms of a list from position `i` on.
pub open spec fn args_within(a: Seq<STerm>, names: Seq<Seq<char>>, i: int) -> bool
    decreases a, 0nat, (if 0 <= i < a.len() { a.len() - i } else { 0 }) as nat,
{
    if 0 <= i < a.len() {
        ops_within(a[i], names) && args_within(a, names, i + 1)
    } else {
        true
    }
}

/// [`ops_within`] for the branches of a list from position `i` on: the
/// constructor and the body.
pub open spec fn branches_within(bs: Seq<SBranch>, names: Seq<Seq<char>>, i: int) -> bool
    decreases bs, 0nat, (if 0 <= i < bs.len() { bs.len() - i } else { 0 }) as nat,
{
    if 0 <= i < bs.len() {
        names.contains(bs[i].constructor) && ops_within(bs[i].body, names) && branches_within(bs, names, i + 1)
    } else {
        true
    }
}

/// Whether every operation a term uses is among `names`.
pub fn term_ops_within(t: &Term, names: &Vec<String>) -> (r: bool)
    ensures
        r == ops_within(t@, crate::term::names_view(names@)),
    decreases t,
{
    let ghost nv = crate::term::names_view(names@);
    match t {
        Term::Var(_) => true,
        Term::Hole { .. } => true,
        Term::Let { bound, body, .. } => term_ops_within(bound, names) && term_ops_within(body, names),
        Term::App { op, args } => {
            proof {
                lemma_app_view(*t);
            }
            if !crate::term::names_contain(names, op) {
                return false;
            }
            let ghost a = view_terms(args@);
            proof {
                assert forall|j: int| 0 <= j < args@.len() implies decreases_to!(*t => args@[j]) by {
                    assert(decreases_to!(*t => *args));
                }
            }
            let mut i: usize = 0;
            while i < args.len()
                invariant
                    a == view_terms(args@),
                    nv == crate::term::names_view(names@),
                    t@ is App && t@->args == a,
                    forall|j: int| 0 <= j < args@.len() ==> decreases_to!(*t => args@[j]),
                    i <= args@.len(),
                    args_within(a, nv, 0) == args_within(a, nv, i as int),
                decreases args@.len() - i,
            {
                proof {
                    assert(a[i as int] == args@[i as int]@);
                }
                if !term_ops_within(&args[i], names) {
                    return false;
                }
                i = i + 1;
            }
            true
        },
        Term::Case { scrutinee, branches } => {
            proof {
                lemma_case_view(*t);
            }
            if !term_ops_within(scrutinee, names) {
                return false;
            }
            let ghost bv = view_branches(branches@);
            proof {
                assert forall|j: int| 0 <= j < branches@.len() implies decreases_to!(*t => branches@[j]) by {
                    assert(decreases_to!(*t => *branches));
                }
            }
            let mut i: usize = 0;
            while i < branches.len()
                invariant
                    bv == view_branches(branches@),
                    nv == crate::term::names_view(names@),
                    t@ is Case && t@->branches == bv,
                    forall|j: int| 0 <= j < branches@.len() ==> decreases_to!(*t => branches@[j]),
                    i <= branches@.len(),
                    branches_within(bv, nv, 0) == branches_within(bv, nv, i as int),
                decreases branches@.len() - i,
            {
                proof {
                    assert(bv[i as int].body == branches@[i as int].body@);
                    assert(bv[i as int].constructor == branches@[i as int].constructor@);
                }
                if !crate::term::names_contain(names, &branches[i].constructor) || !term_ops_within(&branches[i].body, names) {
                    return false;
                }
                i = i + 1;
            }
            true
        },
    }
}

/// Whether an equation uses only the operations named in `names`.
pub open spec fn eq_within(e: SEquation, names: Seq<Seq<char>>) -> bool {
    ops_within(e.lhs, names) && ops_within(e.rhs, names)
}

/// Whether a directed equation uses only the operations named in `names`.
pub open spec fn rule_within(d: SDirectedEquation, names: Seq<Seq<char>>) -> bool {
    ops_within(d.lhs, names) && ops_within(d.rhs, names)
}

/// The equations that use only the operations named in `names`.
pub open spec fn keep_eqs(eqs: Seq<SEquation>, names: Seq<Seq<char>>) -> Seq<SEquation> {
    eqs.filter(|e: SEquation| eq_within(e, names))
}

/// The directed equations that use only the operations named in `names`.
pub open spec fn keep_rules(ds: Seq<SDirectedEquation>, names: Seq<Seq<char>>) -> Seq<SDirectedEquation> {
    ds.filter(|d: SDirectedEquation| rule_within(d, names))
}

/// One more element of a filtered prefix.
pub proof fn lemma_filter_step<A>(s: Seq<A>, pred: spec_fn(A) -> bool, i: int)
    requires
        0 <= i < s.len(),
    ensures
        s.take(i + 1).filter(pred) == if pred(s[i]) {
            s.take(i).filter(pred).push(s[i])
        } else {
            s.take(i).filter(pred)
        },
{
    reveal(Seq::filter);
    assert(s.take(i + 1).drop_last() =~= s.take(i));
    assert(s.take(i + 1).last() == s[i]);
}

/// The empty prefix filters to nothing, and the whole prefix to the whole
/// filter.
pub proof fn lemma_filter_ends<A>(s: Seq<A>, pred: spec_fn(A) -> bool)
    ensures
        s.take(0).filter(pred) == Seq::<A>::empty(),
        s.take(s.len() as int).filter(pred) == s.filter(pred),
{
    reveal(Seq::filter);
    assert(s.take(0) =~= Seq::<A>::empty());
    assert(s.take(s.len() as int) =~= s);
}

/// The models of a list of values.
pub open spec fn models<T: View>(v: Seq<T>) -> Seq<T::V> {
    Seq::new(v.len(), |i: int| v[i]@)
}

fn op_names_of(ops: &Vec<Operation>) -> (r: Vec<String>)
    ensures
        crate::term::names_view(r@) == Seq::new(ops@.len(), |i: int| ops@[i].name@),
{
    let mut r: Vec<String> = Vec::new();
    let mut i: usize = 0;
    while i < ops.len()
        invariant
            i <= ops@.len(),
            r@.len() == i,
            forall|k: int| 0 <= k < i ==> #[trigger] r@[k]@ == ops@[k].name@,
        decreases ops@.len() - i,
    {
        r.push(ops[i].name.clone());
        i = i + 1;
    }
    assert(crate::term::names_view(r@) =~= Seq::new(ops@.len(), |i: int| ops@[i].name@));
    r
}

/// The names of a list of operation models.
pub open spec fn op_model_names(ops: Seq<SOperation>) -> Seq<Seq<char>> {
    Seq::new(ops.len(), |i: int| ops[i].name)
}

fn filter_eqs_by_ops(eqs: &Vec<Equation>, names: &Vec<String>) -> (r: Vec<Equation>)
    ensures
        models(r@) == keep_eqs(models(eqs@), crate::term::names_view(names@)),
{
    let ghost src = models(eqs@);
    let ghost nv = crate::term::names_view(names@);
    let ghost pred = |e: SEquation| eq_within(e, nv);
    let mut out: Vec<Equation> = Vec::new();
    let mut i: usize = 0;
    proof {
        lemma_filter_ends(src, pred);
        assert(models(out@) =~= Seq::<SEquation>::empty());
    }
    while i < eqs.len()
        invariant
            src == models(eqs@),
            nv == crate::term::names_view(names@),
            pred == (|e: SEquation| eq_within(e, nv)),
            i <= eqs@.len(),
            models(out@) == src.take(i as int).filter(pred),
        decreases eqs@.len() - i,
    {
        proof {
            lemma_filter_step(src, pred, i as int);
            assert(src[i as int] == eqs@[i as int]@);
        }
        if term_ops_within(&eqs[i].lhs, names) && term_ops_within(&eqs[i].rhs, names) {
            let ghost before = models(out@);
            out.push(eqs[i].copy());
            proof {
                assert(models(out@) =~= before.push(src[i as int]));
            }
        }
        i = i + 1;
    }
    proof {
        lemma_filter_ends(src, pred);
    }
    out
}

fn filter_rules_by_ops(ds: &Vec<DirectedEquation>, names: &Vec<String>) -> (r: Vec<DirectedEquation>)
    ensures
        models(r@) == keep_rules(models(ds@), crate::term::names_view(names@)),
{
    let ghost src = models(ds@);
    let ghost nv = crate::term::names_view(names@);
    let ghost pred = |d: SDirectedEquation| rule_within(d, nv);
    let mut out: Vec<DirectedEquation> = Vec::new();
    let mut i: usize = 0;
    proof {
        lemma_filter_ends(src, pred);
        assert(models(out@) =~= Seq::<SDirectedEquation>::empty());
    }
    while i < ds.len()
        invariant
            src == models(ds@),
            nv == crate::term::names_view(names@),
            pred == (|d: SDirectedEquation| rule_within(d, nv)),
            i <= ds@.len(),
            models(out@) == src.take(i as int).filter(pred),
        decreases ds@.len() - i,
    {
        proof {
            lemma_filter_step(src, pred, i as int);
            assert(src[i as int] == ds@[i as int]@);
        }
        if term_ops_within(&ds[i].lhs, names) && term_ops_within(&ds[i].rhs, names) {
            let ghost before = models(out@);
            out.push(ds[i].copy());
            proof {
                assert(models(out@) =~= before.push(src[i as int]));
            }
        }
        i = i + 1;
    }
    proof {
        lemma_filter_ends(src, pred);
    }
    out
}


// ---------------------------------------------------------------------------
// Dropping and renaming sorts and operations
// ---------------------------------------------------------------------------

/// Whether an operation model has sort `n` as the head of its output or
/// of an input.
pub open spec fn op_mentions_sort(o: SOperation, n: Seq<char>) -> bool {
    o.output.head == n || exists|i: int| 0 <= i < o.inputs.len() && #[trigger] o.inputs[i].1.head == n
}

/// Drop the sort `n` and every operation that mentions it, then every
/// equation that uses a dropped operation; the result keeps the name and
/// nothing else.
pub open spec fn drop_sort_spec(t: STheory, n: Seq<char>) -> STheory {
    let ops = t.ops.filter(|o: SOperation| !op_mentions_sort(o, n));
    STheory {
        name: t.name,
        extends: Seq::empty(),
        sorts: t.sorts.filter(|s: SSort| s.name != n),
        ops: ops,
        eqs: keep_eqs(t.eqs, op_model_names(ops)),
        directed_eqs: Seq::empty(),
        policies: Seq::empty(),
    }
}

fn op_mentions_sort_exec(o: &Operation, n: &String) -> (r: bool)
    ensures
        r == op_mentions_sort(o@, n@),
{
    if *o.output.head() == *n {
        return true;
    }
    let mut i: usize = 0;
    while i < o.inputs.len()
        invariant
            i <= o.inputs@.len(),
            forall|k: int| 0 <= k < i ==> #[trigger] o@.inputs[k].1.head != n@,
        decreases o.inputs@.len() - i,
    {
        if *o.inputs[i].1.head() == *n {
            assert(o@.inputs[i as int].1.head == n@);
            return true;
        }
        i = i + 1;
    }
    false
}

fn apply_drop_sort(theory: &Theory, name: &String) -> (r: Theory)
    ensures
        r@ == drop_sort_spec(theory@, name@),
{
    let ghost t = theory@;
    let ghost sp = |s: SSort| s.name != name@;
    let ghost op = |o: SOperation| !op_mentions_sort(o, name@);
    let mut sorts: Vec<Sort> = Vec::new();
    let mut i: usize = 0;
    proof {
        lemma_filter_ends(t.sorts, sp);
        assert(models(sorts@) =~= Seq::<SSort>::empty());
    }
    while i < theory.sorts.len()
        invariant
            t == theory@,
            sp == (|s: SSort| s.name != name@),
            i <= theory.sorts@.len(),
            models(sorts@) == t.sorts.take(i as int).filter(sp),
        decreases theory.sorts@.len() - i,
    {
        proof {
            lemma_filter_step(t.sorts, sp, i as int);
        }
        if !(theory.sorts[i].name == *name) {
            let ghost before = models(sorts@);
            sorts.push(theory.sorts[i].copy());
            proof {
                assert(models(sorts@) =~= before.push(t.sorts[i as int]));
            }
        }
        i = i + 1;
    }
    let mut ops: Vec<Operation> = Vec::new();
    let mut i: usize = 0;
    proof {
        lemma_filter_ends(t.sorts, sp);
        lemma_filter_ends(t.ops, op);
        assert(models(ops@) =~= Seq::<SOperation>::empty());
    }
    while i < theory.ops.len()
        invariant
            t == theory@,
            op == (|o: SOperation| !op_mentions_sort(o, name@)),
            i <= theory.ops@.len(),
            models(ops@) == t.ops.take(i as int).filter(op),
        decreases theory.ops@.len() - i,
    {
        proof {
            lemma_filter_step(t.ops, op, i as int);
        }
        if !op_mentions_sort_exec(&theory.ops[i], name) {
            let ghost before = models(ops@);
            ops.push(theory.ops[i].copy());
            proof {
                assert(models(ops@) =~= before.push(t.ops[i as int]));
            }
        }
        i = i + 1;
    }
    proof {
        lemma_filter_ends(t.ops, op);
    }
    let names = op_names_of(&ops);
    proof {
        assert(crate::term::names_view(names@) =~= op_model_names(models(ops@)));
        assert(models(theory.eqs@) =~= t.eqs);
    }
    let eqs = filter_eqs_by_ops(&theory.eqs, &names);
    let r = Theory::new(theory.name.as_str(), sorts, ops, eqs);
    proof {
        assert(r@.extends =~= Seq::<Seq<char>>::empty());
        assert(r@.sorts =~= models(r.sorts@));
        assert(r@.ops =~= models(r.ops@));
        assert(r@.eqs =~= models(r.eqs@));
        assert(r@.directed_eqs =~= Seq::<SDirectedEquation>::empty());
        assert(r@.policies =~= Seq::<SPolicy>::empty());
    }
    r
}

/// A sort expression model with head `old` renamed to `new`.
pub open spec fn rename_head_spec(e: SSortExpr, old: Seq<char>, new: Seq<char>) -> SSortExpr {
    SSortExpr { head: if e.head == old { new } else { e.head }, args: e.args }
}

/// A sort renamed: the sort named `old` takes the name `new` (its
/// parameters unchanged); any other sort has `old` renamed in its
/// parameter sorts.
pub open spec fn rename_sort_in(s: SSort, old: Seq<char>, new: Seq<char>) -> SSort {
    if s.name == old {
        SSort { name: new, params: s.params, kind: s.kind, closure: s.closure }
    } else {
        SSort {
            name: s.name,
            params: Seq::new(s.params.len(), |j: int| (s.params[j].0, rename_head_spec(s.params[j].1, old, new))),
            kind: s.kind,
            closure: s.closure,
        }
    }
}

/// An operation with the sort `old` renamed in its signature.
pub open spec fn rename_sort_in_op(o: SOperation, old: Seq<char>, new: Seq<char>) -> SOperation {
    SOperation {
        name: o.name,
        inputs: Seq::new(o.inputs.len(), |j: int| (o.inputs[j].0, rename_head_spec(o.inputs[j].1, old, new), o.inputs[j].2)),
        output: rename_head_spec(o.output, old, new),
    }
}

/// Rename the sort `old` to `new` in the sorts and operation signatures;
/// the equations are kept; extensions, directed equations and policies
/// are not.
pub open spec fn rename_sort_spec(t: STheory, old: Seq<char>, new: Seq<char>) -> STheory {
    STheory {
        name: t.name,
        extends: Seq::empty(),
        sorts: Seq::new(t.sorts.len(), |i: int| rename_sort_in(t.sorts[i], old, new)),
        ops: Seq::new(t.ops.len(), |i: int| rename_sort_in_op(t.ops[i], old, new)),
        eqs: t.eqs,
        directed_eqs: Seq::empty(),
        policies: Seq::empty(),
    }
}

fn single_rename(old: &String, new: &String) -> (r: RenameMap)
    ensures
        forall|h: Seq<char>| #[trigger] map_name(r@, h) == if h == old@ { new@ } else { h },
        r@ == Map::<Seq<char>, Seq<char>>::empty().insert(old@, new@),
{
    let mut m = RenameMap::new();
    m.insert(old.clone(), new.clone());
    m
}

fn rename_sort_of(s: &Sort, old: &String, new: &String, m: &RenameMap) -> (r: Sort)
    requires
        forall|h: Seq<char>| #[trigger] map_name(m@, h) == if h == old@ { new@ } else { h },
    ensures
        r@ == rename_sort_in(s@, old@, new@),
{
    if s.name == *old {
        let r = Sort { name: new.clone(), params: crate::sort::copy_params(&s.params), kind: s.kind, closure: s.closure.copy() };
        r
    } else {
        let mut params: Vec<SortParam> = Vec::new();
        let mut j: usize = 0;
        while j < s.params.len()
            invariant
                forall|h: Seq<char>| #[trigger] map_name(m@, h) == if h == old@ { new@ } else { h },
                j <= s.params@.len(),
                params@.len() == j,
                forall|k: int| 0 <= k < j ==> #[trigger] crate::sort::param_view(params@[k]) == (s@.params[k].0, rename_head_spec(s@.params[k].1, old@, new@)),
            decreases s.params@.len() - j,
        {
            let e = s.params[j].sort.rename_head(m);
            proof {
                assert(e@ == rename_head_spec(s@.params[j as int].1, old@, new@));
            }
            params.push(SortParam { name: s.params[j].name.clone(), sort: e });
            j = j + 1;
        }
        let r = Sort { name: s.name.clone(), params, kind: s.kind, closure: s.closure.copy() };
        assert(r@.params =~= rename_sort_in(s@, old@, new@).params);
        r
    }
}

fn rename_sort_of_op(o: &Operation, m: &RenameMap, old: &String, new: &String) -> (r: Operation)
    requires
        forall|h: Seq<char>| #[trigger] map_name(m@, h) == if h == old@ { new@ } else { h },
    ensures
        r@ == rename_sort_in_op(o@, old@, new@),
{
    let mut inputs: Vec<(String, SortExpr, crate::op::Implicit)> = Vec::new();
    let mut j: usize = 0;
    while j < o.inputs.len()
        invariant
            forall|h: Seq<char>| #[trigger] map_name(m@, h) == if h == old@ { new@ } else { h },
            j <= o.inputs@.len(),
            inputs@.len() == j,
            forall|k: int| 0 <= k < j ==> #[trigger] crate::op::input_view(inputs@[k]) == (o@.inputs[k].0, rename_head_spec(o@.inputs[k].1, old@, new@), o@.inputs[k].2),
        decreases o.inputs@.len() - j,
    {
        let e = o.inputs[j].1.rename_head(m);
        proof {
            assert(e@ == rename_head_spec(o@.inputs[j as int].1, old@, new@));
        }
        inputs.push((o.inputs[j].0.clone(), e, o.inputs[j].2));
        j = j + 1;
    }
    let out = o.output.rename_head(m);
    let r = Operation { name: o.name.clone(), inputs, output: out };
    assert(r@.inputs =~= rename_sort_in_op(o@, old@, new@).inputs);
    r
}

fn copy_eqs(v: &Vec<Equation>) -> (r: Vec<Equation>)
    ensures
        models(r@) == models(v@),
{
    let mut r: Vec<Equation> = Vec::new();
    let mut i: usize = 0;
    while i < v.len()
        invariant
            i <= v@.len(),
            r@.len() == i,
            forall|k: int| 0 <= k < i ==> #[trigger] r@[k]@ == v@[k]@,
        decreases v@.len() - i,
    {
        r.push(v[i].copy());
        i = i + 1;
    }
    assert(models(r@) =~= models(v@));
    r
}

fn apply_rename_sort(theory: &Theory, old: &String, new: &String) -> (r: Theory)
    ensures
        r@ == rename_sort_spec(theory@, old@, new@),
{
    let ghost t = theory@;
    let m = single_rename(old, new);
    let mut sorts: Vec<Sort> = Vec::new();
    let mut i: usize = 0;
    while i < theory.sorts.len()
        invariant
            t == theory@,
            forall|h: Seq<char>| #[trigger] map_name(m@, h) == if h == old@ { new@ } else { h },
            i <= theory.sorts@.len(),
            sorts@.len() == i,
            forall|k: int| 0 <= k < i ==> #[trigger] sorts@[k]@ == rename_sort_in(t.sorts[k], old@, new@),
        decreases theory.sorts@.len() - i,
    {
        sorts.push(rename_sort_of(&theory.sorts[i], old, new, &m));
        i = i + 1;
    }
    let mut ops: Vec<Operation> = Vec::new();
    let mut i: usize = 0;
    while i < theory.ops.len()
        invariant
            t == theory@,
            forall|h: Seq<char>| #[trigger] map_name(m@, h) == if h == old@ { new@ } else { h },
            i <= theory.ops@.len(),
            ops@.len() == i,
            forall|k: int| 0 <= k < i ==> #[trigger] ops@[k]@ == rename_sort_in_op(t.ops[k], old@, new@),
        decreases theory.ops@.len() - i,
    {
        ops.push(rename_sort_of_op(&theory.ops[i], &m, old, new));
        i = i + 1;
    }
    let r = Theory::new(theory.name.as_str(), sorts, ops, copy_eqs(&theory.eqs));
    proof {
        let w = rename_sort_spec(t, old@, new@);
        assert(r@.extends =~= w.extends);
        assert(r@.sorts =~= w.sorts);
        assert(r@.ops =~= w.ops);
        assert(r@.eqs =~= w.eqs);
        assert(r@.directed_eqs =~= w.directed_eqs);
        assert(r@.policies =~= w.policies);
    }
    r
}

/// Drop the operation `n`, then every equation that uses a dropped
/// operation; the sorts are kept; extensions, directed equations and
/// policies are not.
pub open spec fn drop_op_spec(t: STheory, n: Seq<char>) -> STheory {
    let ops = t.ops.filter(|o: SOperation| o.name != n);
    STheory {
        name: t.name,
        extends: Seq::empty(),
        sorts: t.sorts,
        ops: ops,
        eqs: keep_eqs(t.eqs, op_model_names(ops)),
        directed_eqs: Seq::empty(),
        policies: Seq::empty(),
    }
}

fn copy_sorts(v: &Vec<Sort>) -> (r: Vec<Sort>)
    ensures
        models(r@) == models(v@),
{
    let mut r: Vec<Sort> = Vec::new();
    let mut i: usize = 0;
    while i < v.len()
        invariant
            i <= v@.len(),
            r@.len() == i,
            forall|k: int| 0 <= k < i ==> #[trigger] r@[k]@ == v@[k]@,
        decreases v@.len() - i,
    {
        r.push(v[i].copy());
        i = i + 1;
    }
    assert(models(r@) =~= models(v@));
    r
}

fn copy_ops(v: &Vec<Operation>) -> (r: Vec<Operation>)
    ensures
        models(r@) == models(v@),
{
    let mut r: Vec<Operation> = Vec::new();
    let mut i: usize = 0;
    while i < v.len()
        invariant
            i <= v@.len(),
            r@.len() == i,
            forall|k: int| 0 <= k < i ==> #[trigger] r@[k]@ == v@[k]@,
        decreases v@.len() - i,
    {
        r.push(v[i].copy());
        i = i + 1;
    }
    assert(models(r@) =~= models(v@));
    r
}

fn copy_rules(v: &Vec<DirectedEquation>) -> (r: Vec<DirectedEquation>)
    ensures
        models(r@) == models(v@),
{
    let mut r: Vec<DirectedEquation> = Vec::new();
    let mut i: usize = 0;
    while i < v.len()
        invariant
            i <= v@.len(),
            r@.len() == i,
            forall|k: int| 0 <= k < i ==> #[trigger] r@[k]@ == v@[k]@,
        decreases v@.len() - i,
    {
        r.push(v[i].copy());
        i = i + 1;
    }
    assert(models(r@) =~= models(v@));
    r
}

fn copy_policies(v: &Vec<ConflictPolicy>) -> (r: Vec<ConflictPolicy>)
    ensures
        models(r@) == models(v@),
{
    let mut r: Vec<ConflictPolicy> = Vec::new();
    let mut i: usize = 0;
    while i < v.len()
        invariant
            i <= v@.len(),
            r@.len() == i,
            forall|k: int| 0 <= k < i ==> #[trigger] r@[k]@ == v@[k]@,
        decreases v@.len() - i,
    {
        r.push(v[i].copy());
        i = i + 1;
    }
    assert(models(r@) =~= models(v@));
    r
}

fn copy_names(v: &Vec<String>) -> (r: Vec<String>)
    ensures
        crate::term::names_view(r@) == crate::term::names_view(v@),
{
    let mut r: Vec<String> = Vec::new();
    let mut i: usize = 0;
    while i < v.len()
        invariant
            i <= v@.len(),
            r@.len() == i,
            forall|k: int| 0 <= k < i ==> #[trigger] r@[k]@ == v@[k]@,
        decreases v@.len() - i,
    {
        r.push(v[i].clone());
        i = i + 1;
    }
    assert(crate::term::names_view(r@) =~= crate::term::names_view(v@));
    r
}

fn apply_drop_op(theory: &Theory, name: &String) -> (r: Theory)
    ensures
        r@ == drop_op_spec(theory@, name@),
{
    let ghost t = theory@;
    let ghost op = |o: SOperation| o.name != name@;
    let mut ops: Vec<Operation> = Vec::new();
    let mut i: usize = 0;
    proof {
        lemma_filter_ends(t.ops, op);
        assert(models(ops@) =~= Seq::<SOperation>::empty());
    }
    while i < theory.ops.len()
        invariant
            t == theory@,
            op == (|o: SOperation| o.name != name@),
            i <= theory.ops@.len(),
            models(ops@) == t.ops.take(i as int).filter(op),
        decreases theory.ops@.len() - i,
    {
        proof {
            lemma_filter_step(t.ops, op, i as int);
        }
        if !(theory.ops[i].name == *name) {
            let ghost before = models(ops@);
            ops.push(theory.ops[i].copy());
            proof {
                assert(models(ops@) =~= before.push(t.ops[i as int]));
            }
        }
        i = i + 1;
    }
    proof {
        lemma_filter_ends(t.ops, op);
    }
    let names = op_names_of(&ops);
    proof {
        assert(crate::term::names_view(names@) =~= op_model_names(models(ops@)));
        assert(models(theory.eqs@) =~= t.eqs);
    }
    let eqs = filter_eqs_by_ops(&theory.eqs, &names);
    let r = Theory::new(theory.name.as_str(), copy_sorts(&theory.sorts), ops, eqs);
    proof {
        let w = drop_op_spec(t, name@);
        assert(r@.extends =~= w.extends);
        assert(r@.sorts =~= w.sorts);
        assert(r@.ops =~= w.ops);
        assert(r@.eqs =~= w.eqs);
        assert(r@.directed_eqs =~= w.directed_eqs);
        assert(r@.policies =~= w.policies);
    }
    r
}

/// An operation renamed from `old` to `new`, when it is named `old`.
pub open spec fn rename_op_in(o: SOperation, old: Seq<char>, new: Seq<char>) -> SOperation {
    if o.name == old {
        SOperation { name: new, inputs: o.inputs, output: o.output }
    } else {
        o
    }
}

/// Rename the operation `old` to `new` in the declarations and in the
/// equations; extensions, directed equations and policies are not kept.
pub open spec fn rename_op_spec(t: STheory, old: Seq<char>, new: Seq<char>) -> STheory {
    let m = Map::<Seq<char>, Seq<char>>::empty().insert(old, new);
    STheory {
        name: t.name,
        extends: Seq::empty(),
        sorts: t.sorts,
        ops: Seq::new(t.ops.len(), |i: int| rename_op_in(t.ops[i], old, new)),
        eqs: Seq::new(
            t.eqs.len(),
            |i: int| SEquation { name: t.eqs[i].name, lhs: rename_ops_spec(t.eqs[i].lhs, m), rhs: rename_ops_spec(t.eqs[i].rhs, m) },
        ),
        directed_eqs: Seq::empty(),
        policies: Seq::empty(),
    }
}

/// Whether an equation applies the operation, or names the constructor,
/// `y` on either side.
pub open spec fn equation_mentions(e: SEquation, y: Seq<char>) -> bool {
    crate::nat_transform::term_ops(e.lhs).contains(y) || crate::nat_transform::term_ops(e.rhs).contains(y)
}

/// Every operation or constructor that an equation of the theory mentions
/// is declared in it.
pub open spec fn equations_reference_declared_ops(t: STheory) -> bool {
    forall|k: int, y: Seq<char>|
        0 <= k < t.eqs.len() && #[trigger] equation_mentions(t.eqs[k], y) ==> model_op_names(t).contains(y)
}

/// Renaming the operation `old` to a different name leaves no equation of
/// the result mentioning `old`; and when every operation or constructor
/// that the input's equations mention is declared, every one that the
/// result's equations mention is declared in the result.
pub proof fn lemma_rename_op_equations_follow(old: String, new: String, t: STheory)
    requires
        old@ != new@,
    ensures
        transform_spec(TheoryTransform::RenameOp { old, new }, t) matches Ok(r) && {
            &&& forall|k: int| 0 <= k < r.eqs.len() ==> !equation_mentions(#[trigger] r.eqs[k], old@)
            &&& equations_reference_declared_ops(t) ==> equations_reference_declared_ops(r)
        },
{
    reveal(transform_spec);
    let r = rename_op_spec(t, old@, new@);
    let m = Map::<Seq<char>, Seq<char>>::empty().insert(old@, new@);
    assert forall|k: int| 0 <= k < r.eqs.len() implies !equation_mentions(#[trigger] r.eqs[k], old@) by {
        if crate::nat_transform::term_ops(r.eqs[k].lhs).contains(old@) {
            crate::nat_transform::lemma_term_ops_renamed(t.eqs[k].lhs, m, old@);
        }
        if crate::nat_transform::term_ops(r.eqs[k].rhs).contains(old@) {
            crate::nat_transform::lemma_term_ops_renamed(t.eqs[k].rhs, m, old@);
        }
    }
    if equations_reference_declared_ops(t) {
        assert forall|k: int, x: Seq<char>|
            0 <= k < r.eqs.len() && #[trigger] equation_mentions(r.eqs[k], x) implies model_op_names(r).contains(x) by {
            let y = if crate::nat_transform::term_ops(r.eqs[k].lhs).contains(x) {
                crate::nat_transform::lemma_term_ops_renamed(t.eqs[k].lhs, m, x);
                choose|y: Seq<char>| crate::nat_transform::term_ops(t.eqs[k].lhs).contains(y) && map_name(m, y) == x
            } else {
                crate::nat_transform::lemma_term_ops_renamed(t.eqs[k].rhs, m, x);
                choose|y: Seq<char>| crate::nat_transform::term_ops(t.eqs[k].rhs).contains(y) && map_name(m, y) == x
            };
            assert(equation_mentions(t.eqs[k], y));
            assert(model_op_names(t).contains(y));
            let i = choose|i: int| 0 <= i < model_op_names(t).len() && model_op_names(t)[i] == y;
            assert(model_op_names(r)[i] == x);
        }
    }
}

fn apply_rename_op(theory: &Theory, old: &String, new: &String) -> (r: Theory)
    ensures
        r@ == rename_op_spec(theory@, old@, new@),
{
    let ghost t = theory@;
    let m = single_rename(old, new);
    let mut ops: Vec<Operation> = Vec::new();
    let mut i: usize = 0;
    while i < theory.ops.len()
        invariant
            t == theory@,
            i <= theory.ops@.len(),
            ops@.len() == i,
            forall|k: int| 0 <= k < i ==> #[trigger] ops@[k]@ == rename_op_in(t.ops[k], old@, new@),
        decreases theory.ops@.len() - i,
    {
        let o = &theory.ops[i];
        if o.name == *old {
            ops.push(Operation { name: new.clone(), inputs: crate::op::copy_inputs(&o.inputs), output: o.output.copy() });
        } else {
            ops.push(o.copy());
        }
        i = i + 1;
    }
    let mut eqs: Vec<Equation> = Vec::new();
    let mut i: usize = 0;
    while i < theory.eqs.len()
        invariant
            t == theory@,
            m@ == Map::<Seq<char>, Seq<char>>::empty().insert(old@, new@),
            i <= theory.eqs@.len(),
            eqs@.len() == i,
            forall|k: int| 0 <= k < i ==> #[trigger] eqs@[k]@ == (SEquation {
                name: t.eqs[k].name,
                lhs: rename_ops_spec(t.eqs[k].lhs, m@),
                rhs: rename_ops_spec(t.eqs[k].rhs, m@),
            }),
        decreases theory.eqs@.len() - i,
    {
        eqs.push(theory.eqs[i].rename_ops(&m));
        i = i + 1;
    }
    let r = Theory::new(theory.name.as_str(), copy_sorts(&theory.sorts), ops, eqs);
    proof {
        let w = rename_op_spec(t, old@, new@);
        assert(r@.extends =~= w.extends);
        assert(r@.sorts =~= w.sorts);
        assert(r@.ops =~= w.ops);
        assert(r@.eqs =~= w.eqs);
        assert(r@.directed_eqs =~= w.directed_eqs);
        assert(r@.policies =~= w.policies);
    }
    r
}


// ---------------------------------------------------------------------------
// The remaining elementary transforms
// ---------------------------------------------------------------------------

/// A theory model with one component replaced.
pub open spec fn with_sorts(t: STheory, sorts: Seq<SSort>) -> STheory {
    STheory { name: t.name, extends: t.extends, sorts: sorts, ops: t.ops, eqs: t.eqs, directed_eqs: t.directed_eqs, policies: t.policies }
}

/// A theory model with its operations replaced.
pub open spec fn with_ops(t: STheory, ops: Seq<SOperation>) -> STheory {
    STheory { name: t.name, extends: t.extends, sorts: t.sorts, ops: ops, eqs: t.eqs, directed_eqs: t.directed_eqs, policies: t.policies }
}

/// A theory model with its equations replaced.
pub open spec fn with_eqs(t: STheory, eqs: Seq<SEquation>) -> STheory {
    STheory { name: t.name, extends: t.extends, sorts: t.sorts, ops: t.ops, eqs: eqs, directed_eqs: t.directed_eqs, policies: t.policies }
}

/// A theory model with its directed equations replaced.
pub open spec fn with_rules(t: STheory, ds: Seq<SDirectedEquation>) -> STheory {
    STheory { name: t.name, extends: t.extends, sorts: t.sorts, ops: t.ops, eqs: t.eqs, directed_eqs: ds, policies: t.policies }
}

fn rebuild(
    theory: &Theory,
    sorts: Vec<Sort>,
    ops: Vec<Operation>,
    eqs: Vec<Equation>,
    rules: Vec<DirectedEquation>,
) -> (r: Theory)
    ensures
        r@ == (STheory {
            name: theory@.name,
            extends: theory@.extends,
            sorts: models(sorts@),
            ops: models(ops@),
            eqs: models(eqs@),
            directed_eqs: models(rules@),
            policies: theory@.policies,
        }),
{
    let r = Theory::full(
        theory.name.as_str(),
        copy_names(&theory.extends),
        sorts,
        ops,
        eqs,
        rules,
        copy_policies(&theory.policies),
    );
    proof {
        assert(r@.extends =~= theory@.extends);
        assert(r@.sorts =~= models(r.sorts@));
        assert(r@.ops =~= models(r.ops@));
        assert(r@.eqs =~= models(r.eqs@));
        assert(r@.directed_eqs =~= models(r.directed_eqs@));
        assert(r@.policies =~= theory@.policies);
    }
    r
}

/// Drop the equations named `n`.
pub open spec fn drop_eq_spec(t: STheory, n: Seq<char>) -> STheory {
    with_eqs(t, t.eqs.filter(|e: SEquation| e.name != n))
}

fn apply_drop_equation(theory: &Theory, name: &String) -> (r: Theory)
    ensures
        r@ == drop_eq_spec(theory@, name@),
{
    let ghost t = theory@;
    let ghost p = |e: SEquation| e.name != name@;
    let mut eqs: Vec<Equation> = Vec::new();
    let mut i: usize = 0;
    proof {
        lemma_filter_ends(t.eqs, p);
        assert(models(eqs@) =~= Seq::<SEquation>::empty());
    }
    while i < theory.eqs.len()
        invariant
            t == theory@,
            p == (|e: SEquation| e.name != name@),
            i <= theory.eqs@.len(),
            models(eqs@) == t.eqs.take(i as int).filter(p),
        decreases theory.eqs@.len() - i,
    {
        proof {
            lemma_filter_step(t.eqs, p, i as int);
        }
        if !(theory.eqs[i].name == *name) {
            let ghost before = models(eqs@);
            eqs.push(theory.eqs[i].copy());
            proof {
                assert(models(eqs@) =~= before.push(t.eqs[i as int]));
            }
        }
        i = i + 1;
    }
    proof {
        lemma_filter_ends(t.eqs, p);
        assert(models(theory.sorts@) =~= t.sorts);
        assert(models(theory.ops@) =~= t.ops);
        assert(models(theory.directed_eqs@) =~= t.directed_eqs);
    }
    rebuild(theory, copy_sorts(&theory.sorts), copy_ops(&theory.ops), eqs, copy_rules(&theory.directed_eqs))
}

/// Drop the directed equations named `n`.
pub open spec fn drop_rule_spec(t: STheory, n: Seq<char>) -> STheory {
    with_rules(t, t.directed_eqs.filter(|d: SDirectedEquation| d.name != n))
}

fn apply_drop_directed_equation(theory: &Theory, name: &String) -> (r: Theory)
    ensures
        r@ == drop_rule_spec(theory@, name@),
{
    let ghost t = theory@;
    let ghost p = |d: SDirectedEquation| d.name != name@;
    let mut ds: Vec<DirectedEquation> = Vec::new();
    let mut i: usize = 0;
    proof {
        lemma_filter_ends(t.directed_eqs, p);
        assert(models(ds@) =~= Seq::<SDirectedEquation>::empty());
    }
    while i < theory.directed_eqs.len()
        invariant
            t == theory@,
            p == (|d: SDirectedEquation| d.name != name@),
            i <= theory.directed_eqs@.len(),
            models(ds@) == t.directed_eqs.take(i as int).filter(p),
        decreases theory.directed_eqs@.len() - i,
    {
        proof {
            lemma_filter_step(t.directed_eqs, p, i as int);
        }
        if !(theory.directed_eqs[i].name == *name) {
            let ghost before = models(ds@);
            ds.push(theory.directed_eqs[i].copy());
            proof {
                assert(models(ds@) =~= before.push(t.directed_eqs[i as int]));
            }
        }
        i = i + 1;
    }
    proof {
        lemma_filter_ends(t.directed_eqs, p);
        assert(models(theory.sorts@) =~= t.sorts);
        assert(models(theory.ops@) =~= t.ops);
        assert(models(theory.eqs@) =~= t.eqs);
    }
    rebuild(theory, copy_sorts(&theory.sorts), copy_ops(&theory.ops), copy_eqs(&theory.eqs), ds)
}

/// Give the sorts named `n` the value kind `k`.
pub open spec fn coerce_sort_spec(t: STheory, n: Seq<char>, k: ValueKind) -> STheory {
    with_sorts(
        t,
        Seq::new(
            t.sorts.len(),
            |i: int|
                if t.sorts[i].name == n {
                    SSort { name: t.sorts[i].name, params: t.sorts[i].params, kind: SortKind::Val(k), closure: t.sorts[i].closure }
                } else {
                    t.sorts[i]
                },
        ),
    )
}

fn apply_coerce_sort(theory: &Theory, name: &String, k: ValueKind) -> (r: Theory)
    ensures
        r@ == coerce_sort_spec(theory@, name@, k),
{
    let ghost t = theory@;
    let ghost w = coerce_sort_spec(t, name@, k).sorts;
    let mut sorts: Vec<Sort> = Vec::new();
    let mut i: usize = 0;
    while i < theory.sorts.len()
        invariant
            t == theory@,
            w == coerce_sort_spec(t, name@, k).sorts,
            i <= theory.sorts@.len(),
            sorts@.len() == i,
            forall|q: int| 0 <= q < i ==> #[trigger] sorts@[q]@ == w[q],
        decreases theory.sorts@.len() - i,
    {
        let s = &theory.sorts[i];
        if s.name == *name {
            sorts.push(Sort { name: s.name.clone(), params: crate::sort::copy_params(&s.params), kind: SortKind::Val(k), closure: s.closure.copy() });
        } else {
            sorts.push(s.copy());
        }
        i = i + 1;
    }
    proof {
        assert(models(sorts@) =~= w);
        assert(models(theory.ops@) =~= t.ops);
        assert(models(theory.eqs@) =~= t.eqs);
        assert(models(theory.directed_eqs@) =~= t.directed_eqs);
    }
    rebuild(theory, sorts, copy_ops(&theory.ops), copy_eqs(&theory.eqs), copy_rules(&theory.directed_eqs))
}

/// A sort expression model with the heads `a` and `b` renamed to `m`.
pub open spec fn merge_head_spec(e: SSortExpr, a: Seq<char>, b: Seq<char>, m: Seq<char>) -> SSortExpr {
    SSortExpr { head: if e.head == a || e.head == b { m } else { e.head }, args: e.args }
}

/// An operation with the sorts `a` and `b` renamed to `m` in its
/// signature.
pub open spec fn merge_in_op(o: SOperation, a: Seq<char>, b: Seq<char>, m: Seq<char>) -> SOperation {
    SOperation {
        name: o.name,
        inputs: Seq::new(o.inputs.len(), |j: int| (o.inputs[j].0, merge_head_spec(o.inputs[j].1, a, b, m), o.inputs[j].2)),
        output: merge_head_spec(o.output, a, b, m),
    }
}

/// Merge the sorts `a` and `b` into `m`: the sorts named `a` take the
/// name `m`, those named `b` (and not `a`) are dropped, and every
/// operation signature follows; everything else is kept.
pub open spec fn merge_sorts_spec(t: STheory, a: Seq<char>, b: Seq<char>, m: Seq<char>) -> STheory {
    STheory {
        name: t.name,
        extends: t.extends,
        sorts: t.sorts.filter(|s: SSort| s.name == a || s.name != b).map_values(
            |s: SSort|
                if s.name == a {
                    SSort { name: m, params: s.params, kind: s.kind, closure: s.closure }
                } else {
                    s
                },
        ),
        ops: Seq::new(t.ops.len(), |i: int| merge_in_op(t.ops[i], a, b, m)),
        eqs: t.eqs,
        directed_eqs: t.directed_eqs,
        policies: t.policies,
    }
}

fn apply_merge_sorts(theory: &Theory, a: &String, b: &String, m: &String) -> (r: Theory)
    ensures
        r@ == merge_sorts_spec(theory@, a@, b@, m@),
{
    let ghost t = theory@;
    let ghost p = |s: SSort| s.name == a@ || s.name != b@;
    let ghost f = |s: SSort|
        if s.name == a@ {
            SSort { name: m@, params: s.params, kind: s.kind, closure: s.closure }
        } else {
            s
        };
    let mut sorts: Vec<Sort> = Vec::new();
    let mut i: usize = 0;
    proof {
        lemma_filter_ends(t.sorts, p);
        assert(models(sorts@) =~= Seq::<SSort>::empty().map_values(f));
    }
    while i < theory.sorts.len()
        invariant
            t == theory@,
            p == (|s: SSort| s.name == a@ || s.name != b@),
            f == (|s: SSort|
                if s.name == a@ {
                    SSort { name: m@, params: s.params, kind: s.kind, closure: s.closure }
                } else {
                    s
                }),
            i <= theory.sorts@.len(),
            models(sorts@) == t.sorts.take(i as int).filter(p).map_values(f),
        decreases theory.sorts@.len() - i,
    {
        proof {
            lemma_filter_step(t.sorts, p, i as int);
        }
        let s = &theory.sorts[i];
        let ghost before = t.sorts.take(i as int).filter(p);
        let ghost old_m = models(sorts@);
        proof {
            assert(before.push(t.sorts[i as int]).map_values(f) =~= before.map_values(f).push(f(t.sorts[i as int])));
        }
        if s.name == *a {
            sorts.push(Sort { name: m.clone(), params: crate::sort::copy_params(&s.params), kind: s.kind, closure: s.closure.copy() });
            proof {
                assert(models(sorts@) =~= old_m.push(f(t.sorts[i as int])));
            }
        } else if s.name == *b {
        } else {
            sorts.push(s.copy());
            proof {
                assert(models(sorts@) =~= old_m.push(f(t.sorts[i as int])));
            }
        }
        i = i + 1;
    }
    proof {
        lemma_filter_ends(t.sorts, p);
    }
    let mut mm = RenameMap::new();
    mm.insert(a.clone(), m.clone());
    mm.insert(b.clone(), m.clone());
    proof {
        assert forall|h: Seq<char>| #[trigger] map_name(mm@, h) == if h == a@ || h == b@ { m@ } else { h } by {
        }
    }
    let mut ops: Vec<Operation> = Vec::new();
    let mut i: usize = 0;
    while i < theory.ops.len()
        invariant
            t == theory@,
            forall|h: Seq<char>| #[trigger] map_name(mm@, h) == if h == a@ || h == b@ { m@ } else { h },
            i <= theory.ops@.len(),
            ops@.len() == i,
            forall|q: int| 0 <= q < i ==> #[trigger] ops@[q]@ == merge_in_op(t.ops[q], a@, b@, m@),
        decreases theory.ops@.len() - i,
    {
        let o = &theory.ops[i];
        let mut inputs: Vec<(String, SortExpr, crate::op::Implicit)> = Vec::new();
        let mut j: usize = 0;
        while j < o.inputs.len()
            invariant
                forall|h: Seq<char>| #[trigger] map_name(mm@, h) == if h == a@ || h == b@ { m@ } else { h },
                j <= o.inputs@.len(),
                inputs@.len() == j,
                forall|k: int| 0 <= k < j ==> #[trigger] crate::op::input_view(inputs@[k]) == (o@.inputs[k].0, merge_head_spec(o@.inputs[k].1, a@, b@, m@), o@.inputs[k].2),
            decreases o.inputs@.len() - j,
        {
            let e = o.inputs[j].1.rename_head(&mm);
            proof {
                assert(e@ == merge_head_spec(o@.inputs[j as int].1, a@, b@, m@));
            }
            inputs.push((o.inputs[j].0.clone(), e, o.inputs[j].2));
            j = j + 1;
        }
        let out = o.output.rename_head(&mm);
        let no = Operation { name: o.name.clone(), inputs, output: out };
        proof {
            assert(no@.inputs =~= merge_in_op(o@, a@, b@, m@).inputs);
        }
        ops.push(no);
        i = i + 1;
    }
    proof {
        let w = merge_sorts_spec(t, a@, b@, m@);
        assert(models(ops@) =~= w.ops);
        assert(models(theory.eqs@) =~= t.eqs);
        assert(models(theory.directed_eqs@) =~= t.directed_eqs);
    }
    rebuild(theory, sorts, ops, copy_eqs(&theory.eqs), copy_rules(&theory.directed_eqs))
}

/// The sort renames of a morphism's live entries from position `i` on,
/// applied in entry order (an entry mapping a name to itself is skipped).
pub open spec fn rename_sorts_along(t: STheory, vs: Seq<(Seq<char>, Seq<char>)>, i: int) -> STheory
    decreases (if 0 <= i < vs.len() { vs.len() - i } else { 0 }) as nat,
{
    if 0 <= i < vs.len() {
        let t2 = if live_at(vs, i) && vs[i].0 != vs[i].1 {
            rename_sort_spec(t, vs[i].0, vs[i].1)
        } else {
            t
        };
        rename_sorts_along(t2, vs, i + 1)
    } else {
        t
    }
}

/// The operation renames of a morphism's live entries from position `i`
/// on, applied in entry order.
pub open spec fn rename_ops_along(t: STheory, vs: Seq<(Seq<char>, Seq<char>)>, i: int) -> STheory
    decreases (if 0 <= i < vs.len() { vs.len() - i } else { 0 }) as nat,
{
    if 0 <= i < vs.len() {
        let t2 = if live_at(vs, i) && vs[i].0 != vs[i].1 {
            rename_op_spec(t, vs[i].0, vs[i].1)
        } else {
            t
        };
        rename_ops_along(t2, vs, i + 1)
    } else {
        t
    }
}

/// Pull a theory back along a morphism: rename its sorts, then its
/// operations, as the morphism maps them.
pub open spec fn pullback_apply_spec(t: STheory, m: TheoryMorphism) -> STheory {
    rename_ops_along(rename_sorts_along(t, entry_views(m.sort_map.entries@), 0), entry_views(m.op_map.entries@), 0)
}

fn apply_pullback(theory: &Theory, m: &TheoryMorphism) -> (r: Theory)
    ensures
        r@ == pullback_apply_spec(theory@, *m),
{
    let ghost es = entry_views(m.sort_map.entries@);
    let mut result = theory.copy();
    let mut i: usize = 0;
    while i < m.sort_map.entries.len()
        invariant
            es == entry_views(m.sort_map.entries@),
            i <= es.len(),
            rename_sorts_along(result@, es, i as int) == rename_sorts_along(theory@, es, 0),
        decreases es.len() - i,
    {
        let live = m.sort_map.is_live(i);
        proof {
            assert(live == live_at(es, i as int)) by {
                if !live {
                    let j = choose|j: int| i < j < m.sort_map.entries@.len() && !(#[trigger] m.sort_map.entries@[j].0@ != m.sort_map.entries@[i as int].0@);
                    assert(es[j].0 == es[i as int].0);
                }
            }
        }
        if live && !(m.sort_map.entries[i].0 == m.sort_map.entries[i].1) {
            result = apply_rename_sort(&result, &m.sort_map.entries[i].0, &m.sort_map.entries[i].1);
        }
        i = i + 1;
    }
    let ghost os = entry_views(m.op_map.entries@);
    let ghost mid = result@;
    let mut i: usize = 0;
    while i < m.op_map.entries.len()
        invariant
            os == entry_views(m.op_map.entries@),
            mid == rename_sorts_along(theory@, es, 0),
            i <= os.len(),
            rename_ops_along(result@, os, i as int) == rename_ops_along(mid, os, 0),
        decreases os.len() - i,
    {
        let live = m.op_map.is_live(i);
        proof {
            assert(live == live_at(os, i as int)) by {
                if !live {
                    let j = choose|j: int| i < j < m.op_map.entries@.len() && !(#[trigger] m.op_map.entries@[j].0@ != m.op_map.entries@[i as int].0@);
                    assert(os[j].0 == os[i as int].0);
                }
            }
        }
        if live && !(m.op_map.entries[i].0 == m.op_map.entries[i].1) {
            result = apply_rename_op(&result, &m.op_map.entries[i].0, &m.op_map.entries[i].1);
        }
        i = i + 1;
    }
    result
}

// ---------------------------------------------------------------------------
// Sub-theories reachable from a sort
// ---------------------------------------------------------------------------

/// Whether some input sort of an operation is in `r`.
pub open spec fn feeds(o: SOperation, r: Set<Seq<char>>) -> bool {
    exists|j: int| 0 <= j < o.inputs.len() && r.contains(#[trigger] o.inputs[j].1.head)
}

/// One step of reachability: `r` together with the output sort of every
/// operation with an input sort in `r`.
pub open spec fn reach_step(ops: Seq<SOperation>, r: Set<Seq<char>>) -> Set<Seq<char>> {
    r.union(Set::new(|x: Seq<char>| exists|k: int| 0 <= k < ops.len() && #[trigger] ops[k].output.head == x && feeds(ops[k], r)))
}

/// `n` steps of reachability from `r`.
pub open spec fn reach_iter(ops: Seq<SOperation>, r: Set<Seq<char>>, n: nat) -> Set<Seq<char>>
    decreases n,
{
    if n == 0 {
        r
    } else {
        reach_iter(ops, reach_step(ops, r), (n - 1) as nat)
    }
}

/// The sorts reachable from `start` along operations (input sort to
/// output sort): as many steps as there are operations.
#[verifier::opaque]
pub open spec fn reachable_sorts(t: STheory, start: Seq<char>) -> Set<Seq<char>> {
    reach_iter(t.ops, set![start], t.ops.len())
}

fn feeds_exec(o: &Operation, r: &Vec<String>) -> (b: bool)
    ensures
        b == feeds(o@, crate::maps::names_set(r@)),
{
    let ghost rs = crate::maps::names_set(r@);
    let mut j: usize = 0;
    while j < o.inputs.len()
        invariant
            rs == crate::maps::names_set(r@),
            j <= o.inputs@.len(),
            forall|q: int| 0 <= q < j ==> !rs.contains(#[trigger] o@.inputs[q].1.head),
        decreases o.inputs@.len() - j,
    {
        let h = o.inputs[j].1.head();
        if crate::term::names_contain(r, h) {
            proof {
                let k = choose|k: int| 0 <= k < r@.len() && crate::term::names_view(r@)[k] == h@;
                assert(r@[k]@ == h@);
                assert(rs.contains(o@.inputs[j as int].1.head));
            }
            return true;
        }
        proof {
            assert forall|k: int| 0 <= k < r@.len() implies r@[k]@ != h@ by {
                assert(crate::term::names_view(r@)[k] == r@[k]@);
            }
        }
        j = j + 1;
    }
    false
}

fn reach_step_exec(ops: &Vec<Operation>, r: &Vec<String>) -> (out: Vec<String>)
    ensures
        crate::maps::names_set(out@) == reach_step(models(ops@), crate::maps::names_set(r@)),
{
    let ghost rs = crate::maps::names_set(r@);
    let ghost om = models(ops@);
    let mut out = copy_names(r);
    proof {
        assert forall|x: Seq<char>| #[trigger] crate::maps::names_set(out@).contains(x) == rs.contains(x) by {
            assert(out@.len() == crate::term::names_view(out@).len());
            assert(r@.len() == crate::term::names_view(r@).len());
            if crate::maps::names_set(out@).contains(x) {
                let i = choose|i: int| 0 <= i < out@.len() && #[trigger] out@[i]@ == x;
                assert(crate::term::names_view(out@)[i] == out@[i]@);
                assert(crate::term::names_view(r@)[i] == r@[i]@);
                assert(r@[i]@ == x);
            }
            if rs.contains(x) {
                let i = choose|i: int| 0 <= i < r@.len() && #[trigger] r@[i]@ == x;
                assert(crate::term::names_view(out@)[i] == out@[i]@);
                assert(crate::term::names_view(r@)[i] == r@[i]@);
                assert(out@[i]@ == x);
            }
        }
    }
    let mut k: usize = 0;
    while k < ops.len()
        invariant
            rs == crate::maps::names_set(r@),
            om == models(ops@),
            k <= ops@.len(),
            forall|x: Seq<char>| #[trigger] crate::maps::names_set(out@).contains(x) == (rs.contains(x) || exists|q: int|
                0 <= q < k && #[trigger] om[q].output.head == x && feeds(om[q], rs)),
        decreases ops@.len() - k,
    {
        if feeds_exec(&ops[k], r) {
            let h = ops[k].output.head().clone();
            let ghost before = out@;
            out.push(h);
            proof {
                assert forall|x: Seq<char>| #[trigger] crate::maps::names_set(out@).contains(x) == (rs.contains(x) || exists|q: int|
                    0 <= q < k + 1 && #[trigger] om[q].output.head == x && feeds(om[q], rs)) by {
                    if crate::maps::names_set(out@).contains(x) {
                        let i = choose|i: int| 0 <= i < out@.len() && #[trigger] out@[i]@ == x;
                        if i < before.len() {
                            assert(before[i]@ == x);
                            assert(crate::maps::names_set(before).contains(x));
                        } else {
                            assert(om[k as int].output.head == x);
                        }
                    }
                    if exists|q: int| 0 <= q < k + 1 && #[trigger] om[q].output.head == x && feeds(om[q], rs) {
                        let q = choose|q: int| 0 <= q < k + 1 && #[trigger] om[q].output.head == x && feeds(om[q], rs);
                        if q == k {
                            assert(out@[before.len() as int]@ == x);
                        } else {
                            assert(crate::maps::names_set(before).contains(x));
                            let i = choose|i: int| 0 <= i < before.len() && #[trigger] before[i]@ == x;
                            assert(out@[i]@ == x);
                        }
                    }
                    if rs.contains(x) {
                        assert(crate::maps::names_set(before).contains(x));
                        let i = choose|i: int| 0 <= i < before.len() && #[trigger] before[i]@ == x;
                        assert(out@[i]@ == x);
                    }
                }
            }
        } else {
            proof {
                assert forall|x: Seq<char>| #[trigger] crate::maps::names_set(out@).contains(x) == (rs.contains(x) || exists|q: int|
                    0 <= q < k + 1 && #[trigger] om[q].output.head == x && feeds(om[q], rs)) by {
                    if exists|q: int| 0 <= q < k + 1 && #[trigger] om[q].output.head == x && feeds(om[q], rs) {
                        let q = choose|q: int| 0 <= q < k + 1 && #[trigger] om[q].output.head == x && feeds(om[q], rs);
                        assert(q != k);
                    }
                }
            }
        }
        k = k + 1;
    }
    proof {
        assert(crate::maps::names_set(out@) =~= reach_step(om, rs));
    }
    out
}

fn reachable_exec(theory: &Theory, start: &String) -> (r: Vec<String>)
    ensures
        crate::maps::names_set(r@) == reachable_sorts(theory@, start@),
{
    reveal(reachable_sorts);
    let ghost om = theory@.ops;
    let mut cur: Vec<String> = Vec::new();
    cur.push(start.clone());
    proof {
        assert(crate::maps::names_set(cur@) =~= set![start@]) by {
            assert forall|x: Seq<char>| #[trigger] crate::maps::names_set(cur@).contains(x) == set![start@].contains(x) by {
                if x == start@ {
                    assert(cur@[0]@ == x);
                }
            }
        }
        assert(models(theory.ops@) =~= om);
    }
    let n = theory.ops.len();
    let mut i: usize = 0;
    while i < n
        invariant
            om == theory@.ops,
            om == models(theory.ops@),
            n == om.len(),
            i <= n,
            reach_iter(om, crate::maps::names_set(cur@), (n - i) as nat) == reachable_sorts(theory@, start@),
        decreases n - i,
    {
        let next = reach_step_exec(&theory.ops, &cur);
        cur = next;
        i = i + 1;
    }
    cur
}

/// Whether every input sort and the output sort of an operation are in
/// `r`.
pub open spec fn in_sub(o: SOperation, r: Set<Seq<char>>) -> bool {
    (forall|j: int| 0 <= j < o.inputs.len() ==> r.contains(#[trigger] o.inputs[j].1.head)) && r.contains(o.output.head)
}

/// The sub-theory of `t` over the sorts `r`: named by `t`, `_sub_` and the
/// focus; its sorts and operations within `r`, and the equations and
/// directed equations over those operations.
#[verifier::opaque]
pub open spec fn sub_theory_spec(t: STheory, focus: Seq<char>, r: Set<Seq<char>>) -> STheory {
    let ops = t.ops.filter(|o: SOperation| in_sub(o, r));
    STheory {
        name: t.name + "_sub_"@ + focus,
        extends: Seq::empty(),
        sorts: t.sorts.filter(|s: SSort| r.contains(s.name)),
        ops: ops,
        eqs: keep_eqs(t.eqs, op_model_names(ops)),
        directed_eqs: keep_rules(t.directed_eqs, op_model_names(ops)),
        policies: Seq::empty(),
    }
}

fn in_sub_exec(o: &Operation, r: &Vec<String>) -> (b: bool)
    ensures
        b == in_sub(o@, crate::maps::names_set(r@)),
{
    let ghost rs = crate::maps::names_set(r@);
    let mut j: usize = 0;
    while j < o.inputs.len()
        invariant
            rs == crate::maps::names_set(r@),
            j <= o.inputs@.len(),
            forall|q: int| 0 <= q < j ==> rs.contains(#[trigger] o@.inputs[q].1.head),
        decreases o.inputs@.len() - j,
    {
        proof {
            assert(o@.inputs[j as int].1 == o.inputs@[j as int].1@);
        }
        if !set_contains(r, o.inputs[j].1.head()) {
            proof {
                assert(!rs.contains(o@.inputs[j as int].1.head));
            }
            return false;
        }
        j = j + 1;
    }
    set_contains(r, o.output.head())
}

fn set_contains(r: &Vec<String>, n: &String) -> (b: bool)
    ensures
        b == crate::maps::names_set(r@).contains(n@),
{
    let b = crate::term::names_contain(r, n);
    proof {
        if b {
            let k = choose|k: int| 0 <= k < r@.len() && crate::term::names_view(r@)[k] == n@;
            assert(r@[k]@ == n@);
        } else {
            assert forall|k: int| 0 <= k < r@.len() implies r@[k]@ != n@ by {
                assert(crate::term::names_view(r@)[k] == r@[k]@);
            }
        }
    }
    b
}

fn build_sub_theory(theory: &Theory, focus: &String, r: &Vec<String>) -> (out: Theory)
    ensures
        out@ == sub_theory_spec(theory@, focus@, crate::maps::names_set(r@)),
{
    reveal(sub_theory_spec);
    let ghost t = theory@;
    let ghost rs = crate::maps::names_set(r@);
    let ghost sp = |s: SSort| rs.contains(s.name);
    let ghost op = |o: SOperation| in_sub(o, rs);
    let mut sorts: Vec<Sort> = Vec::new();
    let mut i: usize = 0;
    proof {
        lemma_filter_ends(t.sorts, sp);
        assert(models(sorts@) =~= Seq::<SSort>::empty());
    }
    while i < theory.sorts.len()
        invariant
            t == theory@,
            rs == crate::maps::names_set(r@),
            sp == (|s: SSort| rs.contains(s.name)),
            i <= theory.sorts@.len(),
            models(sorts@) == t.sorts.take(i as int).filter(sp),
        decreases theory.sorts@.len() - i,
    {
        proof {
            lemma_filter_step(t.sorts, sp, i as int);
        }
        if set_contains(r, &theory.sorts[i].name) {
            let ghost before = models(sorts@);
            sorts.push(theory.sorts[i].copy());
            proof {
                assert(models(sorts@) =~= before.push(t.sorts[i as int]));
            }
        }
        i = i + 1;
    }
    let mut ops: Vec<Operation> = Vec::new();
    let mut i: usize = 0;
    proof {
        lemma_filter_ends(t.sorts, sp);
        lemma_filter_ends(t.ops, op);
        assert(models(ops@) =~= Seq::<SOperation>::empty());
    }
    while i < theory.ops.len()
        invariant
            t == theory@,
            rs == crate::maps::names_set(r@),
            op == (|o: SOperation| in_sub(o, rs)),
            i <= theory.ops@.len(),
            models(ops@) == t.ops.take(i as int).filter(op),
        decreases theory.ops@.len() - i,
    {
        proof {
            lemma_filter_step(t.ops, op, i as int);
        }
        if in_sub_exec(&theory.ops[i], r) {
            let ghost before = models(ops@);
            ops.push(theory.ops[i].copy());
            proof {
                assert(models(ops@) =~= before.push(t.ops[i as int]));
            }
        }
        i = i + 1;
    }
    proof {
        lemma_filter_ends(t.ops, op);
    }
    let names = op_names_of(&ops);
    proof {
        assert(crate::term::names_view(names@) =~= op_model_names(models(ops@)));
        assert(models(theory.eqs@) =~= t.eqs);
        assert(models(theory.directed_eqs@) =~= t.directed_eqs);
    }
    let eqs = filter_eqs_by_ops(&theory.eqs, &names);
    let rules = filter_rules_by_ops(&theory.directed_eqs, &names);
    proof {
        reveal_strlit("_sub_");
    }
    let mut name = theory.name.clone();
    name.append("_sub_");
    name.append(focus.as_str());
    let out = Theory::full(name.as_str(), Vec::new(), sorts, ops, eqs, rules, Vec::new());
    proof {
        let w = sub_theory_spec(t, focus@, rs);
        assert(out@.extends =~= w.extends);
        assert(out@.sorts =~= w.sorts);
        assert(out@.ops =~= w.ops);
        assert(out@.eqs =~= w.eqs);
        assert(out@.directed_eqs =~= w.directed_eqs);
        assert(out@.policies =~= w.policies);
    }
    out
}

/// Merge a transformed sub-theory back: the sorts outside `r` then the
/// sub-theory's; the operations not in the sub-theory then the
/// sub-theory's; the equations and directed equations of `t` over the
/// merged operations; `t`'s name, extensions and policies.
#[verifier::opaque]
pub open spec fn scoped_merge_spec(t: STheory, r: Set<Seq<char>>, sub: STheory) -> STheory {
    let sub_names = op_model_names(t.ops.filter(|o: SOperation| in_sub(o, r)));
    let ops = t.ops.filter(|o: SOperation| !sub_names.contains(o.name)) + sub.ops;
    STheory {
        name: t.name,
        extends: t.extends,
        sorts: t.sorts.filter(|s: SSort| !r.contains(s.name)) + sub.sorts,
        ops: ops,
        eqs: keep_eqs(t.eqs, op_model_names(ops)),
        directed_eqs: keep_rules(t.directed_eqs, op_model_names(ops)),
        policies: t.policies,
    }
}

fn scoped_merge(theory: &Theory, r: &Vec<String>, sub: Theory) -> (out: Theory)
    ensures
        out@ == scoped_merge_spec(theory@, crate::maps::names_set(r@), sub@),
{
    reveal(scoped_merge_spec);
    let ghost t = theory@;
    let ghost rs = crate::maps::names_set(r@);
    let ghost sv = sub@;
    let ghost sp = |s: SSort| !rs.contains(s.name);
    let ghost ip = |o: SOperation| in_sub(o, rs);
    let mut sub_ops: Vec<Operation> = Vec::new();
    let mut i: usize = 0;
    proof {
        lemma_filter_ends(t.ops, ip);
        assert(models(sub_ops@) =~= Seq::<SOperation>::empty());
    }
    while i < theory.ops.len()
        invariant
            t == theory@,
            rs == crate::maps::names_set(r@),
            ip == (|o: SOperation| in_sub(o, rs)),
            i <= theory.ops@.len(),
            models(sub_ops@) == t.ops.take(i as int).filter(ip),
        decreases theory.ops@.len() - i,
    {
        proof {
            lemma_filter_step(t.ops, ip, i as int);
        }
        if in_sub_exec(&theory.ops[i], r) {
            let ghost before = models(sub_ops@);
            sub_ops.push(theory.ops[i].copy());
            proof {
                assert(models(sub_ops@) =~= before.push(t.ops[i as int]));
            }
        }
        i = i + 1;
    }
    proof {
        lemma_filter_ends(t.ops, ip);
    }
    let sub_names = op_names_of(&sub_ops);
    let ghost snv = op_model_names(t.ops.filter(ip));
    proof {
        assert(crate::term::names_view(sub_names@) =~= snv);
    }
    let ghost kp = |o: SOperation| !snv.contains(o.name);
    let mut ops: Vec<Operation> = Vec::new();
    let mut i: usize = 0;
    proof {
        lemma_filter_ends(t.ops, kp);
        assert(models(ops@) =~= Seq::<SOperation>::empty());
    }
    while i < theory.ops.len()
        invariant
            t == theory@,
            snv == crate::term::names_view(sub_names@),
            kp == (|o: SOperation| !snv.contains(o.name)),
            i <= theory.ops@.len(),
            models(ops@) == t.ops.take(i as int).filter(kp),
        decreases theory.ops@.len() - i,
    {
        proof {
            lemma_filter_step(t.ops, kp, i as int);
        }
        if !crate::term::names_contain(&sub_names, &theory.ops[i].name) {
            let ghost before = models(ops@);
            ops.push(theory.ops[i].copy());
            proof {
                assert(models(ops@) =~= before.push(t.ops[i as int]));
            }
        }
        i = i + 1;
    }
    proof {
        lemma_filter_ends(t.ops, kp);
    }
    let mut sorts: Vec<Sort> = Vec::new();
    let mut i: usize = 0;
    proof {
        lemma_filter_ends(t.sorts, sp);
        assert(models(sorts@) =~= Seq::<SSort>::empty());
    }
    while i < theory.sorts.len()
        invariant
            t == theory@,
            rs == crate::maps::names_set(r@),
            sp == (|s: SSort| !rs.contains(s.name)),
            i <= theory.sorts@.len(),
            models(sorts@) == t.sorts.take(i as int).filter(sp),
        decreases theory.sorts@.len() - i,
    {
        proof {
            lemma_filter_step(t.sorts, sp, i as int);
        }
        if !set_contains(r, &theory.sorts[i].name) {
            let ghost before = models(sorts@);
            sorts.push(theory.sorts[i].copy());
            proof {
                assert(models(sorts@) =~= before.push(t.sorts[i as int]));
            }
        }
        i = i + 1;
    }
    proof {
        lemma_filter_ends(t.sorts, sp);
    }
    let Theory { sorts: sub_sorts, ops: sub_ops2, .. } = sub;
    let ghost a_sorts = models(sorts@);
    let ghost a_ops = models(ops@);
    let mut sorts = sorts;
    let mut ops = ops;
    let mut sub_sorts = sub_sorts;
    let mut sub_ops2 = sub_ops2;
    proof {
        assert(models(sub_sorts@) =~= sv.sorts);
        assert(models(sub_ops2@) =~= sv.ops);
    }
    sorts.append(&mut sub_sorts);
    ops.append(&mut sub_ops2);
    proof {
        assert(models(sorts@) =~= a_sorts + sv.sorts);
        assert(models(ops@) =~= a_ops + sv.ops);
    }
    let names = op_names_of(&ops);
    proof {
        assert(crate::term::names_view(names@) =~= op_model_names(models(ops@)));
        assert(models(theory.eqs@) =~= t.eqs);
        assert(models(theory.directed_eqs@) =~= t.directed_eqs);
    }
    let eqs = filter_eqs_by_ops(&theory.eqs, &names);
    let rules = filter_rules_by_ops(&theory.directed_eqs, &names);
    rebuild(theory, sorts, ops, eqs, rules)
}


// ---------------------------------------------------------------------------
// Transforms
// ---------------------------------------------------------------------------

/// How an endofunctor transforms a theory. Expressions are carried in the
/// expression language's surface syntax.
#[derive(Debug)]
#[allow(inconsistent_fields)]
pub enum TheoryTransform {
    /// The theory unchanged.
    Identity,
    /// Add a sort.
    AddSort {
        /// The sort.
        sort: Sort,
        /// The schema-level vertex kind, if overridden.
        vertex_kind: Option<String>,
    },
    /// Drop a sort and what depends on it.
    DropSort(String),
    /// Rename a sort.
    RenameSort {
        /// The old name.
        old: String,
        /// The new name.
        new: String,
    },
    /// Add an operation.
    AddOp(Operation),
    /// Drop an operation and the equations using it.
    DropOp(String),
    /// Rename an operation.
    RenameOp {
        /// The old name.
        old: String,
        /// The new name.
        new: String,
    },
    /// Add an equation.
    AddEquation(Equation),
    /// Drop an equation.
    DropEquation(String),
    /// Give a sort another value kind.
    CoerceSort {
        /// The sort.
        sort_name: String,
        /// The new value kind.
        target_kind: ValueKind,
        /// The coercion expression.
        coercion_expr: String,
        /// The inverse expression, if any.
        inverse_expr: Option<String>,
        /// The round-trip class.
        coercion_class: CoercionClass,
    },
    /// Merge two sorts into one.
    MergeSorts {
        /// The kept sort.
        sort_a: String,
        /// The dropped sort.
        sort_b: String,
        /// The merged name.
        merged_name: String,
        /// The merger expression.
        merger_expr: String,
    },
    /// Add a sort with a default expression for existing data.
    AddSortWithDefault {
        /// The sort.
        sort: Sort,
        /// The schema-level vertex kind, if overridden.
        vertex_kind: Option<String>,
        /// The default expression.
        default_expr: String,
    },
    /// Add a directed equation.
    AddDirectedEquation(DirectedEquation),
    /// Drop a directed equation.
    DropDirectedEquation(String),
    /// Pull back along a morphism.
    Pullback(TheoryMorphism),
    /// Rename an edge label; the theory is unchanged.
    RenameEdgeName {
        /// Source sort.
        src_sort: String,
        /// Target sort.
        tgt_sort: String,
        /// Old label.
        old_name: String,
        /// New label.
        new_name: String,
    },
    /// Add an edge; the theory is unchanged.
    AddEdge {
        /// Source vertex.
        src_sort: String,
        /// Target vertex.
        tgt_sort: String,
        /// The label.
        edge_name: String,
        /// The kind.
        edge_kind: String,
    },
    /// Drop an edge; the theory is unchanged.
    DropEdge {
        /// Source vertex.
        src_sort: String,
        /// Target vertex.
        tgt_sort: String,
        /// The label, if any.
        edge_name: Option<String>,
    },
    /// Apply a transform to the sub-theory reachable from a sort.
    ScopedTransform {
        /// The focus sort.
        focus: String,
        /// The inner transform.
        inner: Box<TheoryTransform>,
    },
    /// The first transform, then the second.
    Compose(Box<TheoryTransform>, Box<TheoryTransform>),
}

/// The error for a missing focus sort.
pub open spec fn focus_error(focus: Seq<char>) -> SGatError {
    SGatError::FactorizationError("scoped transform focus sort '"@ + focus + "' not found in theory"@)
}

/// What a transform makes of a theory model.
#[verifier::opaque]
pub open spec fn transform_spec(tr: TheoryTransform, t: STheory) -> Result<STheory, SGatError>
    decreases tr,
{
    match tr {
        TheoryTransform::Identity => Ok(t),
        TheoryTransform::AddSort { sort, .. } => Ok(with_sorts(t, t.sorts.push(sort@))),
        TheoryTransform::AddSortWithDefault { sort, .. } => Ok(with_sorts(t, t.sorts.push(sort@))),
        TheoryTransform::DropSort(n) => Ok(drop_sort_spec(t, n@)),
        TheoryTransform::RenameSort { old, new } => Ok(rename_sort_spec(t, old@, new@)),
        TheoryTransform::AddOp(o) => Ok(with_ops(t, t.ops.push(o@))),
        TheoryTransform::DropOp(n) => Ok(drop_op_spec(t, n@)),
        TheoryTransform::RenameOp { old, new } => Ok(rename_op_spec(t, old@, new@)),
        TheoryTransform::AddEquation(e) => Ok(with_eqs(t, t.eqs.push(e@))),
        TheoryTransform::DropEquation(n) => Ok(drop_eq_spec(t, n@)),
        TheoryTransform::CoerceSort { sort_name, target_kind, .. } => Ok(coerce_sort_spec(t, sort_name@, target_kind)),
        TheoryTransform::MergeSorts { sort_a, sort_b, merged_name, .. } => Ok(merge_sorts_spec(t, sort_a@, sort_b@, merged_name@)),
        TheoryTransform::AddDirectedEquation(d) => Ok(with_rules(t, t.directed_eqs.push(d@))),
        TheoryTransform::DropDirectedEquation(n) => Ok(drop_rule_spec(t, n@)),
        TheoryTransform::Pullback(m) => Ok(pullback_apply_spec(t, m)),
        TheoryTransform::RenameEdgeName { .. } => Ok(t),
        TheoryTransform::AddEdge { .. } => Ok(t),
        TheoryTransform::DropEdge { .. } => Ok(t),
        TheoryTransform::ScopedTransform { focus, inner } => if !model_sort_names(t).contains(focus@) {
            Err(focus_error(focus@))
        } else {
            let r = reachable_sorts(t, focus@);
            match transform_spec(*inner, sub_theory_spec(t, focus@, r)) {
                Err(e) => Err(e),
                Ok(sub) => Ok(scoped_merge_spec(t, r, sub)),
            }
        },
        TheoryTransform::Compose(first, second) => match transform_spec(*first, t) {
            Err(e) => Err(e),
            Ok(m) => transform_spec(*second, m),
        },
    }
}

fn add_sort_exec(theory: &Theory, sort: &Sort) -> (r: Theory)
    ensures
        r@ == with_sorts(theory@, theory@.sorts.push(sort@)),
{
    let mut sorts = copy_sorts(&theory.sorts);
    let ghost before = models(sorts@);
    sorts.push(sort.copy());
    proof {
        assert(models(sorts@) =~= theory@.sorts.push(sort@));
        assert(models(theory.ops@) =~= theory@.ops);
        assert(models(theory.eqs@) =~= theory@.eqs);
        assert(models(theory.directed_eqs@) =~= theory@.directed_eqs);
    }
    rebuild(theory, sorts, copy_ops(&theory.ops), copy_eqs(&theory.eqs), copy_rules(&theory.directed_eqs))
}

fn focus_error_exec(focus: &String) -> (e: GatError)
    ensures
        e@ == focus_error(focus@),
{
    proof {
        reveal_strlit("scoped transform focus sort '");
        reveal_strlit("' not found in theory");
    }
    let mut msg = String::new();
    msg.append("scoped transform focus sort '");
    msg.append(focus.as_str());
    msg.append("' not found in theory");
    proof {
        assert(msg@ =~= "scoped transform focus sort '"@ + focus@ + "' not found in theory"@);
    }
    GatError::FactorizationError(msg)
}

fn scoped_exec(theory: &Theory, focus: &String, inner: &TheoryTransform) -> (r: Result<Theory, GatError>)
    ensures
        model_sort_names(theory@).contains(focus@) ==> match r {
            Ok(q) => match transform_spec(*inner, sub_theory_spec(theory@, focus@, reachable_sorts(theory@, focus@))) {
                Ok(sub) => q@ == scoped_merge_spec(theory@, reachable_sorts(theory@, focus@), sub),
                Err(_) => false,
            },
            Err(e) => transform_spec(*inner, sub_theory_spec(theory@, focus@, reachable_sorts(theory@, focus@))) == Err::<STheory, SGatError>(e@),
        },
        !model_sort_names(theory@).contains(focus@) ==> match r {
            Ok(_) => false,
            Err(e) => e@ == focus_error(focus@),
        },
    decreases inner, 2nat,
{
    proof {
        crate::theory::lemma_first_named(crate::theory::sort_names(theory.sorts@), focus@);
        assert(model_sort_names(theory@) =~= crate::theory::sort_names(theory.sorts@));
    }
    if !theory.has_sort(focus.as_str()) {
        return Err(focus_error_exec(focus));
    }
    let reach = reachable_exec(theory, focus);
    let sub = build_sub_theory(theory, focus, &reach);
    let transformed = match inner.apply(&sub) {
        Ok(x) => x,
        Err(e) => {
            return Err(e);
        },
    };
    Ok(scoped_merge(theory, &reach, transformed))
}

impl TheoryTransform {
    /// Apply this transform to a theory.
    pub fn apply(&self, theory: &Theory) -> (r: Result<Theory, GatError>)
        ensures
            match r {
                Ok(q) => transform_spec(*self, theory@) == Ok::<STheory, SGatError>(q@),
                Err(e) => transform_spec(*self, theory@) == Err::<STheory, SGatError>(e@),
            },
        decreases self, 1nat,
    {
        proof {
            reveal(transform_spec);
        }
        match self {
            TheoryTransform::Identity => Ok(theory.copy()),
            TheoryTransform::AddSort { sort, .. } => Ok(add_sort_exec(theory, sort)),
            TheoryTransform::AddSortWithDefault { sort, .. } => Ok(add_sort_exec(theory, sort)),
            TheoryTransform::DropSort(n) => Ok(apply_drop_sort(theory, n)),
            TheoryTransform::RenameSort { old, new } => Ok(apply_rename_sort(theory, old, new)),
            TheoryTransform::AddOp(o) => {
                let mut ops = copy_ops(&theory.ops);
                ops.push(o.copy());
                proof {
                    assert(models(ops@) =~= theory@.ops.push(o@));
                    assert(models(theory.sorts@) =~= theory@.sorts);
                    assert(models(theory.eqs@) =~= theory@.eqs);
                    assert(models(theory.directed_eqs@) =~= theory@.directed_eqs);
                }
                Ok(rebuild(theory, copy_sorts(&theory.sorts), ops, copy_eqs(&theory.eqs), copy_rules(&theory.directed_eqs)))
            },
            TheoryTransform::DropOp(n) => Ok(apply_drop_op(theory, n)),
            TheoryTransform::RenameOp { old, new } => Ok(apply_rename_op(theory, old, new)),
            TheoryTransform::AddEquation(e) => {
                let mut eqs = copy_eqs(&theory.eqs);
                eqs.push(e.copy());
                proof {
                    assert(models(eqs@) =~= theory@.eqs.push(e@));
                    assert(models(theory.sorts@) =~= theory@.sorts);
                    assert(models(theory.ops@) =~= theory@.ops);
                    assert(models(theory.directed_eqs@) =~= theory@.directed_eqs);
                }
                Ok(rebuild(theory, copy_sorts(&theory.sorts), copy_ops(&theory.ops), eqs, copy_rules(&theory.directed_eqs)))
            },
            TheoryTransform::DropEquation(n) => Ok(apply_drop_equation(theory, n)),
            TheoryTransform::CoerceSort { sort_name, target_kind, .. } => Ok(apply_coerce_sort(theory, sort_name, *target_kind)),
            TheoryTransform::MergeSorts { sort_a, sort_b, merged_name, .. } => Ok(apply_merge_sorts(theory, sort_a, sort_b, merged_name)),
            TheoryTransform::AddDirectedEquation(d) => {
                let mut ds = copy_rules(&theory.directed_eqs);
                ds.push(d.copy());
                proof {
                    assert(models(ds@) =~= theory@.directed_eqs.push(d@));
                    assert(models(theory.sorts@) =~= theory@.sorts);
                    assert(models(theory.ops@) =~= theory@.ops);
                    assert(models(theory.eqs@) =~= theory@.eqs);
                }
                Ok(rebuild(theory, copy_sorts(&theory.sorts), copy_ops(&theory.ops), copy_eqs(&theory.eqs), ds))
            },
            TheoryTransform::DropDirectedEquation(n) => Ok(apply_drop_directed_equation(theory, n)),
            TheoryTransform::Pullback(m) => Ok(apply_pullback(theory, m)),
            TheoryTransform::RenameEdgeName { .. } => Ok(theory.copy()),
            TheoryTransform::AddEdge { .. } => Ok(theory.copy()),
            TheoryTransform::DropEdge { .. } => Ok(theory.copy()),
            TheoryTransform::ScopedTransform { focus, inner } => scoped_exec(theory, focus, inner),
            TheoryTransform::Compose(first, second) => {
                let mid = match first.apply(theory) {
                    Ok(x) => x,
                    Err(e) => {
                        return Err(e);
                    },
                };
                second.apply(&mid)
            },
        }
    }
}


// ---------------------------------------------------------------------------
// Copies
// ---------------------------------------------------------------------------

fn copy_opt_name(n: &Option<String>) -> (r: Option<String>)
    ensures
        crate::term::opt_name_view(r) == crate::term::opt_name_view(*n),
{
    match n {
        Some(x) => Some(x.clone()),
        None => None,
    }
}

/// A copy of a morphism with the same names and entries.
pub fn copy_morphism(m: &TheoryMorphism) -> (r: TheoryMorphism)
    ensures
        r.name@ == m.name@,
        r.domain@ == m.domain@,
        r.codomain@ == m.codomain@,
        r.sort_map@ == m.sort_map@,
        r.op_map@ == m.op_map@,
        entry_views(r.sort_map.entries@) == entry_views(m.sort_map.entries@),
        entry_views(r.op_map.entries@) == entry_views(m.op_map.entries@),
{
    let sm = m.sort_map.copy();
    let om = m.op_map.copy();
    assert(entry_views(sm.entries@) =~= entry_views(m.sort_map.entries@));
    assert(entry_views(om.entries@) =~= entry_views(m.op_map.entries@));
    TheoryMorphism { name: m.name.clone(), domain: m.domain.clone(), codomain: m.codomain.clone(), sort_map: sm, op_map: om }
}

impl TheoryTransform {
    /// A copy with the same effect on every theory.
    pub fn copy(&self) -> (r: TheoryTransform)
        ensures
            forall|t: STheory| #[trigger] transform_spec(r, t) == transform_spec(*self, t),
        decreases self,
    {
        proof {
            reveal(transform_spec);
        }
        match self {
            TheoryTransform::Identity => TheoryTransform::Identity,
            TheoryTransform::AddSort { sort, vertex_kind } => TheoryTransform::AddSort { sort: sort.copy(), vertex_kind: copy_opt_name(vertex_kind) },
            TheoryTransform::AddSortWithDefault { sort, vertex_kind, default_expr } => TheoryTransform::AddSortWithDefault {
                sort: sort.copy(),
                vertex_kind: copy_opt_name(vertex_kind),
                default_expr: default_expr.clone(),
            },
            TheoryTransform::DropSort(n) => TheoryTransform::DropSort(n.clone()),
            TheoryTransform::RenameSort { old, new } => TheoryTransform::RenameSort { old: old.clone(), new: new.clone() },
            TheoryTransform::AddOp(o) => TheoryTransform::AddOp(o.copy()),
            TheoryTransform::DropOp(n) => TheoryTransform::DropOp(n.clone()),
            TheoryTransform::RenameOp { old, new } => TheoryTransform::RenameOp { old: old.clone(), new: new.clone() },
            TheoryTransform::AddEquation(e) => TheoryTransform::AddEquation(e.copy()),
            TheoryTransform::DropEquation(n) => TheoryTransform::DropEquation(n.clone()),
            TheoryTransform::CoerceSort { sort_name, target_kind, coercion_expr, inverse_expr, coercion_class } => TheoryTransform::CoerceSort {
                sort_name: sort_name.clone(),
                target_kind: *target_kind,
                coercion_expr: coercion_expr.clone(),
                inverse_expr: copy_opt_name(inverse_expr),
                coercion_class: *coercion_class,
            },
            TheoryTransform::MergeSorts { sort_a, sort_b, merged_name, merger_expr } => TheoryTransform::MergeSorts {
                sort_a: sort_a.clone(),
                sort_b: sort_b.clone(),
                merged_name: merged_name.clone(),
                merger_expr: merger_expr.clone(),
            },
            TheoryTransform::AddDirectedEquation(d) => TheoryTransform::AddDirectedEquation(d.copy()),
            TheoryTransform::DropDirectedEquation(n) => TheoryTransform::DropDirectedEquation(n.clone()),
            TheoryTransform::Pullback(m) => TheoryTransform::Pullback(copy_morphism(m)),
            TheoryTransform::RenameEdgeName { src_sort, tgt_sort, old_name, new_name } => TheoryTransform::RenameEdgeName {
                src_sort: src_sort.clone(),
                tgt_sort: tgt_sort.clone(),
                old_name: old_name.clone(),
                new_name: new_name.clone(),
            },
            TheoryTransform::AddEdge { src_sort, tgt_sort, edge_name, edge_kind } => TheoryTransform::AddEdge {
                src_sort: src_sort.clone(),
                tgt_sort: tgt_sort.clone(),
                edge_name: edge_name.clone(),
                edge_kind: edge_kind.clone(),
            },
            TheoryTransform::DropEdge { src_sort, tgt_sort, edge_name } => TheoryTransform::DropEdge {
                src_sort: src_sort.clone(),
                tgt_sort: tgt_sort.clone(),
                edge_name: copy_opt_name(edge_name),
            },
            TheoryTransform::ScopedTransform { focus, inner } => {
                let c = inner.copy();
                let r = TheoryTransform::ScopedTransform { focus: focus.clone(), inner: Box::new(c) };
                proof {
                    assert forall|t: STheory| #[trigger] transform_spec(r, t) == transform_spec(*self, t) by {
                        let sub = sub_theory_spec(t, focus@, reachable_sorts(t, focus@));
                        assert(transform_spec(c, sub) == transform_spec(**inner, sub));
                    }
                }
                r
            },
            TheoryTransform::Compose(a, b) => {
                let ca = a.copy();
                let cb = b.copy();
                let r = TheoryTransform::Compose(Box::new(ca), Box::new(cb));
                proof {
                    assert forall|t: STheory| #[trigger] transform_spec(r, t) == transform_spec(*self, t) by {
                        assert(transform_spec(ca, t) == transform_spec(**a, t));
                        match transform_spec(ca, t) {
                            Ok(m) => {
                                assert(transform_spec(cb, m) == transform_spec(**b, m));
                            },
                            Err(_) => {},
                        }
                    }
                }
                r
            },
        }
    }
}

proof fn lemma_all_hold_congr(a: Seq<TheoryConstraint>, b: Seq<TheoryConstraint>, t: STheory)
    requires
        a.len() == b.len(),
        forall|i: int| 0 <= i < a.len() ==> #[trigger] constraint_holds(a[i], t) == constraint_holds(b[i], t),
    ensures
        all_hold(a, t) == all_hold(b, t),
        any_holds(a, t) == any_holds(b, t),
    decreases a.len(),
{
    if a.len() > 0 {
        assert forall|i: int| 0 <= i < a.drop_last().len() implies #[trigger] constraint_holds(a.drop_last()[i], t) == constraint_holds(b.drop_last()[i], t) by {
            assert(constraint_holds(a[i], t) == constraint_holds(b[i], t));
        }
        lemma_all_hold_congr(a.drop_last(), b.drop_last(), t);
        assert(constraint_holds(a[a.len() - 1], t) == constraint_holds(b[b.len() - 1], t));
    }
}

impl TheoryConstraint {
    /// A copy that every theory satisfies exactly when it satisfies this
    /// constraint.
    pub fn copy(&self) -> (r: TheoryConstraint)
        ensures
            forall|t: STheory| #[trigger] constraint_holds(r, t) == constraint_holds(*self, t),
        decreases self,
    {
        match self {
            TheoryConstraint::Unconstrained => TheoryConstraint::Unconstrained,
            TheoryConstraint::HasSort(n) => TheoryConstraint::HasSort(n.clone()),
            TheoryConstraint::HasOp(n) => TheoryConstraint::HasOp(n.clone()),
            TheoryConstraint::HasEquation(n) => TheoryConstraint::HasEquation(n.clone()),
            TheoryConstraint::HasDirectedEq(n) => TheoryConstraint::HasDirectedEq(n.clone()),
            TheoryConstraint::HasValSort(k) => TheoryConstraint::HasValSort(*k),
            TheoryConstraint::HasCoercion { from, to } => TheoryConstraint::HasCoercion { from: *from, to: *to },
            TheoryConstraint::HasMerger(k) => TheoryConstraint::HasMerger(*k),
            TheoryConstraint::HasPolicy(n) => TheoryConstraint::HasPolicy(n.clone()),
            TheoryConstraint::Not(b) => {
                let c = b.copy();
                let r = TheoryConstraint::Not(Box::new(c));
                proof {
                    assert forall|t: STheory| #[trigger] constraint_holds(r, t) == constraint_holds(*self, t) by {
                        assert(constraint_holds(c, t) == constraint_holds(**b, t));
                    }
                }
                r
            },
            TheoryConstraint::All(cs) => {
                let v = copy_constraints(self, cs);
                let r = TheoryConstraint::All(v);
                proof {
                    assert forall|t: STheory| #[trigger] constraint_holds(r, t) == constraint_holds(*self, t) by {
                        lemma_all_hold_congr(v@, cs@, t);
                    }
                }
                r
            },
            TheoryConstraint::Any(cs) => {
                let v = copy_constraints(self, cs);
                let r = TheoryConstraint::Any(v);
                proof {
                    assert forall|t: STheory| #[trigger] constraint_holds(r, t) == constraint_holds(*self, t) by {
                        lemma_all_hold_congr(v@, cs@, t);
                    }
                }
                r
            },
        }
    }
}

fn copy_constraints(parent: &TheoryConstraint, cs: &Vec<TheoryConstraint>) -> (r: Vec<TheoryConstraint>)
    requires
        forall|j: int| 0 <= j < cs@.len() ==> decreases_to!(*parent => cs@[j]),
    ensures
        r@.len() == cs@.len(),
        forall|i: int, t: STheory| 0 <= i < cs@.len() ==> #[trigger] constraint_holds(r@[i], t) == constraint_holds(cs@[i], t),
    decreases parent, 0nat,
{
    let mut v: Vec<TheoryConstraint> = Vec::new();
    let mut i: usize = 0;
    while i < cs.len()
        invariant
            i <= cs@.len(),
            v@.len() == i,
            forall|j: int| 0 <= j < cs@.len() ==> decreases_to!(*parent => cs@[j]),
            forall|k: int, t: STheory| 0 <= k < i ==> #[trigger] constraint_holds(v@[k], t) == constraint_holds(cs@[k], t),
        decreases cs@.len() - i,
    {
        let c = cs[i].copy();
        v.push(c);
        i = i + 1;
    }
    v
}

// ---------------------------------------------------------------------------
// Endofunctors
// ---------------------------------------------------------------------------

/// A theory endofunctor: a named transform with a precondition.
#[derive(Debug)]
pub struct TheoryEndofunctor {
    /// The name.
    pub name: String,
    /// The precondition.
    pub precondition: TheoryConstraint,
    /// The transform.
    pub transform: TheoryTransform,
}

/// The first transform, then the second, on a theory model.
pub open spec fn then_spec(first: TheoryTransform, second: TheoryTransform, t: STheory) -> Result<STheory, SGatError> {
    match transform_spec(first, t) {
        Err(e) => Err(e),
        Ok(m) => transform_spec(second, m),
    }
}

/// The error when an endofunctor's precondition fails.
pub open spec fn precondition_error(name: Seq<char>) -> SGatError {
    SGatError::FactorizationError("endofunctor '"@ + name + "' precondition not satisfied"@)
}

fn precondition_error_exec(name: &String) -> (e: GatError)
    ensures
        e@ == precondition_error(name@),
{
    proof {
        reveal_strlit("endofunctor '");
        reveal_strlit("' precondition not satisfied");
    }
    let mut msg = String::new();
    msg.append("endofunctor '");
    msg.append(name.as_str());
    msg.append("' precondition not satisfied");
    proof {
        assert(msg@ =~= "endofunctor '"@ + name@ + "' precondition not satisfied"@);
    }
    GatError::FactorizationError(msg)
}

impl TheoryEndofunctor {
    /// Whether the precondition holds of `theory`.
    pub fn applicable_to(&self, theory: &Theory) -> (r: bool)
        ensures
            r == constraint_holds(self.precondition, theory@),
    {
        self.precondition.satisfied_by(theory)
    }

    /// Apply the transform when the precondition holds; otherwise fail.
    pub fn apply(&self, theory: &Theory) -> (r: Result<Theory, GatError>)
        ensures
            !constraint_holds(self.precondition, theory@) ==> match r {
                Ok(_) => false,
                Err(e) => e@ == precondition_error(self.name@),
            },
            constraint_holds(self.precondition, theory@) ==> match r {
                Ok(q) => transform_spec(self.transform, theory@) == Ok::<STheory, SGatError>(q@),
                Err(e) => transform_spec(self.transform, theory@) == Err::<STheory, SGatError>(e@),
            },
    {
        if !self.applicable_to(theory) {
            return Err(precondition_error_exec(&self.name));
        }
        self.transform.apply(theory)
    }

    /// This endofunctor followed by `other`: named `other.self`, with this
    /// one's precondition, and the two transforms in sequence.
    pub fn compose(&self, other: &TheoryEndofunctor) -> (r: TheoryEndofunctor)
        ensures
            r.name@ == other.name@ + "."@ + self.name@,
            forall|t: STheory| #[trigger] constraint_holds(r.precondition, t) == constraint_holds(self.precondition, t),
            forall|t: STheory| #[trigger] transform_spec(r.transform, t) == then_spec(self.transform, other.transform, t),
    {
        proof {
            reveal_strlit(".");
        }
        let mut name = other.name.clone();
        name.append(".");
        name.append(self.name.as_str());
        let a = self.transform.copy();
        let b = other.transform.copy();
        let r = TheoryEndofunctor {
            name,
            precondition: self.precondition.copy(),
            transform: TheoryTransform::Compose(Box::new(a), Box::new(b)),
        };
        proof {
            reveal(transform_spec);
            assert forall|t: STheory| #[trigger] transform_spec(r.transform, t) == then_spec(self.transform, other.transform, t) by {
                assert(transform_spec(a, t) == transform_spec(self.transform, t));
                match transform_spec(a, t) {
                    Ok(m) => {
                        assert(transform_spec(b, m) == transform_spec(other.transform, m));
                    },
                    Err(_) => {},
                }
            }
        }
        r
    }
}

// ---------------------------------------------------------------------------
// Laws
// ---------------------------------------------------------------------------

/// The identity transform is a unit for composition on both sides.
pub proof fn lemma_compose_identity(x: TheoryTransform, t: STheory)
    ensures
        transform_spec(TheoryTransform::Compose(Box::new(TheoryTransform::Identity), Box::new(x)), t) == transform_spec(x, t),
        transform_spec(TheoryTransform::Compose(Box::new(x), Box::new(TheoryTransform::Identity)), t) == transform_spec(x, t),
{
    reveal_with_fuel(transform_spec, 2);
}

/// Composition of transforms is associative.
pub proof fn lemma_compose_assoc(a: TheoryTransform, b: TheoryTransform, c: TheoryTransform, t: STheory)
    ensures
        transform_spec(
            TheoryTransform::Compose(Box::new(TheoryTransform::Compose(Box::new(a), Box::new(b))), Box::new(c)),
            t,
        ) == transform_spec(TheoryTransform::Compose(Box::new(a), Box::new(TheoryTransform::Compose(Box::new(b), Box::new(c)))), t),
{
    reveal_with_fuel(transform_spec, 3);
}

/// Double negation of a constraint is the constraint.
pub proof fn lemma_not_not(c: TheoryConstraint, t: STheory)
    ensures
        constraint_holds(TheoryConstraint::Not(Box::new(TheoryConstraint::Not(Box::new(c)))), t) == constraint_holds(c, t),
{
    assert(constraint_holds(TheoryConstraint::Not(Box::new(c)), t) == !constraint_holds(c, t));
}

/// The edge-level transforms leave every theory unchanged.
pub proof fn lemma_edge_transforms_identity(tr: TheoryTransform, t: STheory)
    requires
        tr is RenameEdgeName || tr is AddEdge || tr is DropEdge,
    ensures
        transform_spec(tr, t) == Ok::<STheory, SGatError>(t),
{
    reveal(transform_spec);
}

} // verus!
