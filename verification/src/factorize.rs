//! Factorization of a theory morphism into elementary endofunctors: drops,
//! then renames, then additions.
use vstd::prelude::*;
use vstd::string::*;

use crate::eq::{rename_ops_spec, Equation, SEquation};
use crate::error::{GatError, SGatError};
use crate::maps::{entry_views, live_keys, map_name, RenameMap};
use crate::morphism::TheoryMorphism;
use crate::op::{Operation, SOperation};
use crate::schema_functor::{model_op_names, model_sort_names, transform_spec, TheoryConstraint, TheoryEndofunctor, TheoryTransform};
use crate::sort::{SSort, Sort};
use crate::term::names_view;
use crate::theory::{STheory, Theory};

verus! {

/// The items of `s` from position `i` on that `keep` holds of, each
/// mapped by `f`, in order.
pub open spec fn select_from<A, B>(s: Seq<A>, keep: spec_fn(A) -> bool, f: spec_fn(A) -> B, i: int) -> Seq<B>
    decreases (if 0 <= i < s.len() { s.len() - i } else { 0 }) as nat,
{
    if 0 <= i < s.len() {
        (if keep(s[i]) {
            seq![f(s[i])]
        } else {
            Seq::empty()
        }) + select_from(s, keep, f, i + 1)
    } else {
        Seq::empty()
    }
}

/// The kept and the dropped items together are as many as the items.
pub proof fn lemma_select_split<A, B>(s: Seq<A>, keep: spec_fn(A) -> bool, drop: spec_fn(A) -> bool, f: spec_fn(A) -> B, g: spec_fn(A) -> B, i: int)
    requires
        0 <= i <= s.len(),
        forall|a: A| #[trigger] drop(a) == !keep(a),
    ensures
        select_from(s, keep, f, i).len() + select_from(s, drop, g, i).len() == s.len() - i,
    decreases s.len() - i,
{
    if i < s.len() {
        lemma_select_split(s, keep, drop, f, g, i + 1);
        assert(drop(s[i]) == !keep(s[i]));
    }
}

/// The equation names of a theory model.
pub open spec fn model_eq_names(t: STheory) -> Seq<Seq<char>> {
    Seq::new(t.eqs.len(), |i: int| t.eqs[i].name)
}

/// One elementary step of a factorization.
pub enum PlanStep {
    /// Drop the named equation.
    DropEquation(Seq<char>),
    /// Drop the named operation.
    DropOp(Seq<char>),
    /// Drop the named sort.
    DropSort(Seq<char>),
    /// Rename a sort.
    RenameSort(Seq<char>, Seq<char>),
    /// Rename an operation.
    RenameOp(Seq<char>, Seq<char>),
    /// Add a sort.
    AddSort(SSort),
    /// Add an operation.
    AddOp(SOperation),
    /// Add an equation.
    AddEquation(SEquation),
}

/// The endofunctor `e` carries out the step `p`: its name, precondition
/// and transform are those of the step.
pub open spec fn realizes(e: TheoryEndofunctor, p: PlanStep) -> bool {
    match p {
        PlanStep::DropEquation(n) => e.name@ == "drop_eq_"@ + n && (e.precondition matches TheoryConstraint::HasEquation(x)
            && x@ == n) && (e.transform matches TheoryTransform::DropEquation(x) && x@ == n),
        PlanStep::DropOp(n) => e.name@ == "drop_op_"@ + n && (e.precondition matches TheoryConstraint::HasOp(x) && x@ == n)
            && (e.transform matches TheoryTransform::DropOp(x) && x@ == n),
        PlanStep::DropSort(n) => e.name@ == "drop_sort_"@ + n && (e.precondition matches TheoryConstraint::HasSort(x) && x@ == n)
            && (e.transform matches TheoryTransform::DropSort(x) && x@ == n),
        PlanStep::RenameSort(o, n) => e.name@ == "rename_sort_"@ + o + "_"@ + n && (e.precondition matches TheoryConstraint::HasSort(x)
            && x@ == o) && (e.transform matches TheoryTransform::RenameSort { old, new } && old@ == o && new@ == n),
        PlanStep::RenameOp(o, n) => e.name@ == "rename_op_"@ + o + "_"@ + n && (e.precondition matches TheoryConstraint::HasOp(x)
            && x@ == o) && (e.transform matches TheoryTransform::RenameOp { old, new } && old@ == o && new@ == n),
        PlanStep::AddSort(s) => e.name@ == "add_sort_"@ + s.name && e.precondition is Unconstrained && (
        e.transform matches TheoryTransform::AddSort { sort, vertex_kind } && sort@ == s && vertex_kind is None),
        PlanStep::AddOp(o) => e.name@ == "add_op_"@ + o.name && e.precondition is Unconstrained && (
        e.transform matches TheoryTransform::AddOp(x) && x@ == o),
        PlanStep::AddEquation(q) => e.name@ == "add_eq_"@ + q.name && e.precondition is Unconstrained && (
        e.transform matches TheoryTransform::AddEquation(x) && x@ == q),
    }
}

/// A sort whose parameter sorts all have names in `added`.
pub open spec fn sort_ready(s: SSort, added: Seq<Seq<char>>) -> bool {
    forall|k: int| 0 <= k < s.params.len() ==> added.contains(#[trigger] s.params[k].1.head)
}

/// Sorts ready with respect to `added`.
pub open spec fn ready_in(added: Seq<Seq<char>>) -> spec_fn(SSort) -> bool {
    |s: SSort| sort_ready(s, added)
}

/// Sorts not ready with respect to `added`.
pub open spec fn unready_in(added: Seq<Seq<char>>) -> spec_fn(SSort) -> bool {
    |s: SSort| !sort_ready(s, added)
}

/// A sort taken as it is.
pub open spec fn same_sort() -> spec_fn(SSort) -> SSort {
    |s: SSort| s
}

/// The sorts of `rem` in dependency order, round by round: each round
/// takes, in order, every sort whose parameter sorts are already added;
/// the rounds stop when none is ready (the rest is never added).
pub open spec fn topo_order(rem: Seq<SSort>, added: Seq<Seq<char>>) -> Seq<SSort>
    decreases rem.len(),
{
    let ready = select_from(rem, ready_in(added), same_sort(), 0);
    let not_ready = select_from(rem, unready_in(added), same_sort(), 0);
    if rem.len() == 0 || ready.len() == 0 {
        Seq::empty()
    } else {
        proof {
            lemma_select_split(rem, ready_in(added), unready_in(added), same_sort(), same_sort(), 0);
        }
        ready + topo_order(not_ready, added + Seq::new(ready.len(), |k: int| ready[k].name))
    }
}

/// The names of the domain's sorts after the morphism's renaming.
pub open spec fn sorts_after(m: TheoryMorphism, d: STheory) -> Seq<Seq<char>> {
    Seq::new(d.sorts.len(), |i: int| map_name(m.sort_map@, d.sorts[i].name))
}

/// The names of the domain's operations after the morphism's renaming.
pub open spec fn ops_after(m: TheoryMorphism, d: STheory) -> Seq<Seq<char>> {
    Seq::new(d.ops.len(), |i: int| map_name(m.op_map@, d.ops[i].name))
}

/// The domain has an equation that the morphism's operation renaming
/// sends to exactly the sides of `e`.
pub open spec fn equation_carried(m: TheoryMorphism, d: STheory, e: SEquation) -> bool {
    exists|i: int| 0 <= i < d.eqs.len() && rename_ops_spec(#[trigger] d.eqs[i].lhs, m.op_map@) == e.lhs
        && rename_ops_spec(d.eqs[i].rhs, m.op_map@) == e.rhs
}

/// Domain equations whose names the codomain lacks.
pub open spec fn keep_drop_eq(c: STheory) -> spec_fn(SEquation) -> bool {
    |e: SEquation| !model_eq_names(c).contains(e.name)
}

/// The step dropping an equation.
pub open spec fn to_drop_eq() -> spec_fn(SEquation) -> PlanStep {
    |e: SEquation| PlanStep::DropEquation(e.name)
}

/// Domain operations whose renamed names the codomain lacks.
pub open spec fn keep_drop_op(m: TheoryMorphism, c: STheory) -> spec_fn(SOperation) -> bool {
    |o: SOperation| !model_op_names(c).contains(map_name(m.op_map@, o.name))
}

/// The step dropping an operation.
pub open spec fn to_drop_op() -> spec_fn(SOperation) -> PlanStep {
    |o: SOperation| PlanStep::DropOp(o.name)
}

/// Domain sorts whose renamed names the codomain lacks.
pub open spec fn keep_drop_sort(m: TheoryMorphism, c: STheory) -> spec_fn(SSort) -> bool {
    |s: SSort| !model_sort_names(c).contains(map_name(m.sort_map@, s.name))
}

/// The step dropping a sort.
pub open spec fn to_drop_sort() -> spec_fn(SSort) -> PlanStep {
    |s: SSort| PlanStep::DropSort(s.name)
}

/// Sort-map keys that change a domain sort into a codomain sort.
pub open spec fn keep_rename_sort(m: TheoryMorphism, d: STheory, c: STheory) -> spec_fn(Seq<char>) -> bool {
    |k: Seq<char>| k != m.sort_map@[k] && model_sort_names(d).contains(k) && model_sort_names(c).contains(m.sort_map@[k])
}

/// The step renaming a sort along the sort map.
pub open spec fn to_rename_sort(m: TheoryMorphism) -> spec_fn(Seq<char>) -> PlanStep {
    |k: Seq<char>| PlanStep::RenameSort(k, m.sort_map@[k])
}

/// Operation-map keys that change a domain operation into a codomain one.
pub open spec fn keep_rename_op(m: TheoryMorphism, d: STheory, c: STheory) -> spec_fn(Seq<char>) -> bool {
    |k: Seq<char>| k != m.op_map@[k] && model_op_names(d).contains(k) && model_op_names(c).contains(m.op_map@[k])
}

/// The step renaming an operation along the operation map.
pub open spec fn to_rename_op(m: TheoryMorphism) -> spec_fn(Seq<char>) -> PlanStep {
    |k: Seq<char>| PlanStep::RenameOp(k, m.op_map@[k])
}

/// Codomain sorts whose names the renamed domain lacks.
pub open spec fn keep_add_sort(m: TheoryMorphism, d: STheory) -> spec_fn(SSort) -> bool {
    |s: SSort| !sorts_after(m, d).contains(s.name)
}

/// Codomain operations whose names the renamed domain lacks.
pub open spec fn keep_add_op(m: TheoryMorphism, d: STheory) -> spec_fn(SOperation) -> bool {
    |o: SOperation| !ops_after(m, d).contains(o.name)
}

/// The step adding an operation.
pub open spec fn to_add_op() -> spec_fn(SOperation) -> PlanStep {
    |o: SOperation| PlanStep::AddOp(o)
}

/// Codomain equations that no domain equation is carried to and whose
/// names the domain lacks.
pub open spec fn keep_add_eq(m: TheoryMorphism, d: STheory) -> spec_fn(SEquation) -> bool {
    |e: SEquation| !equation_carried(m, d, e) && !model_eq_names(d).contains(e.name)
}

/// The step adding an equation.
pub open spec fn to_add_eq() -> spec_fn(SEquation) -> PlanStep {
    |e: SEquation| PlanStep::AddEquation(e)
}

/// The drops: each domain equation whose name the codomain lacks, then
/// each operation and each sort whose renamed name the codomain lacks.
pub open spec fn drop_plan(m: TheoryMorphism, d: STheory, c: STheory) -> Seq<PlanStep> {
    select_from(d.eqs, keep_drop_eq(c), to_drop_eq(), 0) + select_from(d.ops, keep_drop_op(m, c), to_drop_op(), 0)
        + select_from(d.sorts, keep_drop_sort(m, c), to_drop_sort(), 0)
}

/// The renames: each live key of the sort map (in order) whose image
/// changes a domain sort into a codomain sort, then the same for
/// operations.
pub open spec fn rename_plan(m: TheoryMorphism, d: STheory, c: STheory) -> Seq<PlanStep> {
    select_from(live_keys(entry_views(m.sort_map.entries@), 0), keep_rename_sort(m, d, c), to_rename_sort(m), 0)
        + select_from(live_keys(entry_views(m.op_map.entries@), 0), keep_rename_op(m, d, c), to_rename_op(m), 0)
}

/// The codomain sorts whose names the renamed domain lacks.
pub open spec fn sorts_to_add(m: TheoryMorphism, d: STheory, c: STheory) -> Seq<SSort> {
    select_from(c.sorts, keep_add_sort(m, d), same_sort(), 0)
}

/// The additions: the missing sorts in dependency order, then the
/// codomain operations whose names the renamed domain lacks, then the
/// codomain equations that no domain equation is carried to and whose
/// names the domain lacks.
pub open spec fn add_plan(m: TheoryMorphism, d: STheory, c: STheory) -> Seq<PlanStep> {
    let sorted = topo_order(sorts_to_add(m, d, c), sorts_after(m, d));
    Seq::new(sorted.len(), |k: int| PlanStep::AddSort(sorted[k])) + select_from(c.ops, keep_add_op(m, d), to_add_op(), 0)
        + select_from(c.eqs, keep_add_eq(m, d), to_add_eq(), 0)
}

/// The factorization of `m: D → C`: drops, then renames, then additions.
pub open spec fn factor_plan(m: TheoryMorphism, d: STheory, c: STheory) -> Seq<PlanStep> {
    drop_plan(m, d, c) + rename_plan(m, d, c) + add_plan(m, d, c)
}

/// A morphism factorized into elementary endofunctors.
#[derive(Debug)]
pub struct Factorization {
    /// The steps, in order.
    pub steps: Vec<TheoryEndofunctor>,
    /// The domain theory's name.
    pub domain: String,
    /// The codomain theory's name.
    pub codomain: String,
}

/// The endofunctors carry out the plan, step for step.
pub open spec fn realizes_plan(steps: Seq<TheoryEndofunctor>, plan: Seq<PlanStep>) -> bool {
    steps.len() == plan.len() && forall|i: int| 0 <= i < plan.len() ==> realizes(#[trigger] steps[i], plan[i])
}


fn prefixed(prefix: &str, n: &String) -> (r: String)
    ensures
        r@ == prefix@ + n@,
{
    let mut s = String::new();
    s.append(prefix);
    s.append(n.as_str());
    s
}

fn mk_drop_eq(n: &String) -> (e: TheoryEndofunctor)
    ensures
        realizes(e, PlanStep::DropEquation(n@)),
{
    proof {
        reveal_strlit("drop_eq_");
    }
    TheoryEndofunctor {
        name: prefixed("drop_eq_", n),
        precondition: TheoryConstraint::HasEquation(n.clone()),
        transform: TheoryTransform::DropEquation(n.clone()),
    }
}

fn mk_drop_op(n: &String) -> (e: TheoryEndofunctor)
    ensures
        realizes(e, PlanStep::DropOp(n@)),
{
    proof {
        reveal_strlit("drop_op_");
    }
    TheoryEndofunctor {
        name: prefixed("drop_op_", n),
        precondition: TheoryConstraint::HasOp(n.clone()),
        transform: TheoryTransform::DropOp(n.clone()),
    }
}

fn mk_drop_sort(n: &String) -> (e: TheoryEndofunctor)
    ensures
        realizes(e, PlanStep::DropSort(n@)),
{
    proof {
        reveal_strlit("drop_sort_");
    }
    TheoryEndofunctor {
        name: prefixed("drop_sort_", n),
        precondition: TheoryConstraint::HasSort(n.clone()),
        transform: TheoryTransform::DropSort(n.clone()),
    }
}

fn rename_name(prefix: &str, o: &String, n: &String) -> (r: String)
    ensures
        r@ == prefix@ + o@ + "_"@ + n@,
{
    proof {
        reveal_strlit("_");
    }
    let mut s = String::new();
    s.append(prefix);
    s.append(o.as_str());
    s.append("_");
    s.append(n.as_str());
    proof {
        assert(s@ =~= prefix@ + o@ + "_"@ + n@);
    }
    s
}

fn mk_rename_sort(o: &String, n: &String) -> (e: TheoryEndofunctor)
    ensures
        realizes(e, PlanStep::RenameSort(o@, n@)),
{
    proof {
        reveal_strlit("rename_sort_");
    }
    TheoryEndofunctor {
        name: rename_name("rename_sort_", o, n),
        precondition: TheoryConstraint::HasSort(o.clone()),
        transform: TheoryTransform::RenameSort { old: o.clone(), new: n.clone() },
    }
}

fn mk_rename_op(o: &String, n: &String) -> (e: TheoryEndofunctor)
    ensures
        realizes(e, PlanStep::RenameOp(o@, n@)),
{
    proof {
        reveal_strlit("rename_op_");
    }
    TheoryEndofunctor {
        name: rename_name("rename_op_", o, n),
        precondition: TheoryConstraint::HasOp(o.clone()),
        transform: TheoryTransform::RenameOp { old: o.clone(), new: n.clone() },
    }
}

fn mk_add_sort(sort: Sort) -> (e: TheoryEndofunctor)
    ensures
        realizes(e, PlanStep::AddSort(sort@)),
{
    proof {
        reveal_strlit("add_sort_");
    }
    let name = prefixed("add_sort_", &sort.name);
    TheoryEndofunctor { name, precondition: TheoryConstraint::Unconstrained, transform: TheoryTransform::AddSort { sort, vertex_kind: None } }
}

fn mk_add_op(op: Operation) -> (e: TheoryEndofunctor)
    ensures
        realizes(e, PlanStep::AddOp(op@)),
{
    proof {
        reveal_strlit("add_op_");
    }
    let name = prefixed("add_op_", &op.name);
    TheoryEndofunctor { name, precondition: TheoryConstraint::Unconstrained, transform: TheoryTransform::AddOp(op) }
}

fn mk_add_eq(eq: Equation) -> (e: TheoryEndofunctor)
    ensures
        realizes(e, PlanStep::AddEquation(eq@)),
{
    proof {
        reveal_strlit("add_eq_");
    }
    let name = prefixed("add_eq_", &eq.name);
    TheoryEndofunctor { name, precondition: TheoryConstraint::Unconstrained, transform: TheoryTransform::AddEquation(eq) }
}

/// Concatenated plans are carried out by concatenated step lists.
proof fn lemma_realizes_concat(a: Seq<TheoryEndofunctor>, p: Seq<PlanStep>, b: Seq<TheoryEndofunctor>, q: Seq<PlanStep>)
    requires
        realizes_plan(a, p),
        realizes_plan(b, q),
    ensures
        realizes_plan(a + b, p + q),
{
    assert forall|i: int| 0 <= i < (p + q).len() implies realizes(#[trigger] (a + b)[i], (p + q)[i]) by {
        if i < p.len() {
            assert((a + b)[i] == a[i]);
            assert((p + q)[i] == p[i]);
        } else {
            assert((a + b)[i] == b[i - a.len()]);
            assert((p + q)[i] == q[i - p.len()]);
        }
    }
}

/// Extending a realized prefix by one realized step.
proof fn lemma_realizes_push(a: Seq<TheoryEndofunctor>, p: Seq<PlanStep>, e: TheoryEndofunctor, x: PlanStep)
    requires
        realizes_plan(a, p),
        realizes(e, x),
    ensures
        realizes_plan(a.push(e), p.push(x)),
{
    assert forall|i: int| 0 <= i < p.push(x).len() implies realizes(#[trigger] a.push(e)[i], p.push(x)[i]) by {
        if i < p.len() {
            assert(a.push(e)[i] == a[i]);
        }
    }
}

/// One step of a selection: the selected prefix grows by the item when it
/// is kept.
proof fn lemma_select_step<A, B>(s: Seq<A>, keep: spec_fn(A) -> bool, f: spec_fn(A) -> B, done: Seq<B>, i: int)
    requires
        0 <= i < s.len(),
        done + select_from(s, keep, f, i) == select_from(s, keep, f, 0),
    ensures
        keep(s[i]) ==> done.push(f(s[i])) + select_from(s, keep, f, i + 1) == select_from(s, keep, f, 0),
        !keep(s[i]) ==> done + select_from(s, keep, f, i + 1) == select_from(s, keep, f, 0),
{
    let rest = select_from(s, keep, f, i + 1);
    if keep(s[i]) {
        assert(done + (seq![f(s[i])] + rest) =~= done.push(f(s[i])) + rest);
    } else {
        assert(done + (Seq::<B>::empty() + rest) =~= done + rest);
    }
}

/// Nothing is selected from past the end.
proof fn lemma_select_end<A, B>(s: Seq<A>, keep: spec_fn(A) -> bool, f: spec_fn(A) -> B, done: Seq<B>)
    requires
        done + select_from(s, keep, f, s.len() as int) == select_from(s, keep, f, 0),
    ensures
        done == select_from(s, keep, f, 0),
{
    assert(done + Seq::<B>::empty() =~= done);
}

fn eq_name_list(t: &Theory) -> (r: Vec<String>)
    ensures
        names_view(r@) == model_eq_names(t@),
{
    let mut r: Vec<String> = Vec::new();
    let mut i: usize = 0;
    while i < t.eqs.len()
        invariant
            i <= t.eqs@.len(),
            r@.len() == i,
            forall|k: int| 0 <= k < i ==> #[trigger] r@[k]@ == t.eqs@[k].name@,
        decreases t.eqs@.len() - i,
    {
        r.push(t.eqs[i].name.clone());
        i = i + 1;
    }
    assert(names_view(r@) =~= model_eq_names(t@));
    r
}

pub(crate) fn op_name_list(t: &Theory) -> (r: Vec<String>)
    ensures
        names_view(r@) == model_op_names(t@),
{
    let mut r: Vec<String> = Vec::new();
    let mut i: usize = 0;
    while i < t.ops.len()
        invariant
            i <= t.ops@.len(),
            r@.len() == i,
            forall|k: int| 0 <= k < i ==> #[trigger] r@[k]@ == t.ops@[k].name@,
        decreases t.ops@.len() - i,
    {
        r.push(t.ops[i].name.clone());
        i = i + 1;
    }
    assert(names_view(r@) =~= model_op_names(t@));
    r
}

pub(crate) fn sort_name_list(t: &Theory) -> (r: Vec<String>)
    ensures
        names_view(r@) == model_sort_names(t@),
{
    let mut r: Vec<String> = Vec::new();
    let mut i: usize = 0;
    while i < t.sorts.len()
        invariant
            i <= t.sorts@.len(),
            r@.len() == i,
            forall|k: int| 0 <= k < i ==> #[trigger] r@[k]@ == t.sorts@[k].name@,
        decreases t.sorts@.len() - i,
    {
        r.push(t.sorts[i].name.clone());
        i = i + 1;
    }
    assert(names_view(r@) =~= model_sort_names(t@));
    r
}

fn drop_eqs_exec(d: &Theory, c: &Theory) -> (r: Vec<TheoryEndofunctor>)
    ensures
        realizes_plan(r@, select_from(d@.eqs, keep_drop_eq(c@), to_drop_eq(), 0)),
{
    let cn = eq_name_list(c);
    let ghost src = d@.eqs;
    let mut out: Vec<TheoryEndofunctor> = Vec::new();
    let ghost mut done: Seq<PlanStep> = Seq::empty();
    let mut i: usize = 0;
    while i < d.eqs.len()
        invariant
            src == d@.eqs,
            names_view(cn@) == model_eq_names(c@),
            i <= src.len(),
            realizes_plan(out@, done),
            done + select_from(src, keep_drop_eq(c@), to_drop_eq(), i as int) == select_from(src, keep_drop_eq(c@), to_drop_eq(), 0),
        decreases src.len() - i,
    {
        let n = &d.eqs[i].name;
        proof {
            assert(src[i as int].name == n@);
            lemma_select_step(src, keep_drop_eq(c@), to_drop_eq(), done, i as int);
        }
        if !crate::term::names_contain(&cn, n) {
            let e = mk_drop_eq(n);
            proof {
                lemma_realizes_push(out@, done, e, to_drop_eq()(src[i as int]));
                done = done.push(to_drop_eq()(src[i as int]));
            }
            out.push(e);
        }
        i = i + 1;
    }
    proof {
        lemma_select_end(src, keep_drop_eq(c@), to_drop_eq(), done);
    }
    out
}

fn drop_ops_exec(m: &TheoryMorphism, d: &Theory, c: &Theory) -> (r: Vec<TheoryEndofunctor>)
    ensures
        realizes_plan(r@, select_from(d@.ops, keep_drop_op(*m, c@), to_drop_op(), 0)),
{
    let cn = op_name_list(c);
    let ghost src = d@.ops;
    let mut out: Vec<TheoryEndofunctor> = Vec::new();
    let ghost mut done: Seq<PlanStep> = Seq::empty();
    let mut i: usize = 0;
    while i < d.ops.len()
        invariant
            src == d@.ops,
            names_view(cn@) == model_op_names(c@),
            i <= src.len(),
            realizes_plan(out@, done),
            done + select_from(src, keep_drop_op(*m, c@), to_drop_op(), i as int) == select_from(src, keep_drop_op(*m, c@), to_drop_op(), 0),
        decreases src.len() - i,
    {
        let n = &d.ops[i].name;
        proof {
            assert(src[i as int].name == n@);
            lemma_select_step(src, keep_drop_op(*m, c@), to_drop_op(), done, i as int);
        }
        let eff = m.op_map.lookup_or_same(n);
        if !crate::term::names_contain(&cn, &eff) {
            let e = mk_drop_op(n);
            proof {
                lemma_realizes_push(out@, done, e, to_drop_op()(src[i as int]));
                done = done.push(to_drop_op()(src[i as int]));
            }
            out.push(e);
        }
        i = i + 1;
    }
    proof {
        lemma_select_end(src, keep_drop_op(*m, c@), to_drop_op(), done);
    }
    out
}

fn drop_sorts_exec(m: &TheoryMorphism, d: &Theory, c: &Theory) -> (r: Vec<TheoryEndofunctor>)
    ensures
        realizes_plan(r@, select_from(d@.sorts, keep_drop_sort(*m, c@), to_drop_sort(), 0)),
{
    let cn = sort_name_list(c);
    let ghost src = d@.sorts;
    let mut out: Vec<TheoryEndofunctor> = Vec::new();
    let ghost mut done: Seq<PlanStep> = Seq::empty();
    let mut i: usize = 0;
    while i < d.sorts.len()
        invariant
            src == d@.sorts,
            names_view(cn@) == model_sort_names(c@),
            i <= src.len(),
            realizes_plan(out@, done),
            done + select_from(src, keep_drop_sort(*m, c@), to_drop_sort(), i as int) == select_from(src, keep_drop_sort(*m, c@), to_drop_sort(), 0),
        decreases src.len() - i,
    {
        let n = &d.sorts[i].name;
        proof {
            assert(src[i as int].name == n@);
            lemma_select_step(src, keep_drop_sort(*m, c@), to_drop_sort(), done, i as int);
        }
        let eff = m.sort_map.lookup_or_same(n);
        if !crate::term::names_contain(&cn, &eff) {
            let e = mk_drop_sort(n);
            proof {
                lemma_realizes_push(out@, done, e, to_drop_sort()(src[i as int]));
                done = done.push(to_drop_sort()(src[i as int]));
            }
            out.push(e);
        }
        i = i + 1;
    }
    proof {
        lemma_select_end(src, keep_drop_sort(*m, c@), to_drop_sort(), done);
    }
    out
}


/// Every live key of a renaming is one of its keys.
proof fn lemma_live_keys_in_dom(es: Seq<(String, String)>, i: int)
    requires
        0 <= i,
    ensures
        forall|w: int| 0 <= w < live_keys(entry_views(es), i).len() ==> crate::maps::entries_map(es).contains_key(
            #[trigger] live_keys(entry_views(es), i)[w],
        ),
    decreases (if i < es.len() { es.len() - i } else { 0 }) as nat,
{
    let vs = entry_views(es);
    if i < es.len() {
        lemma_live_keys_in_dom(es, i + 1);
        crate::maps::lemma_entries_map_dom(es, es[i].0@);
        let head: Seq<Seq<char>> = if crate::maps::live_at(vs, i) {
            seq![vs[i].0]
        } else {
            Seq::empty()
        };
        let rest = live_keys(vs, i + 1);
        assert forall|w: int| 0 <= w < live_keys(vs, i).len() implies crate::maps::entries_map(es).contains_key(
            #[trigger] live_keys(vs, i)[w],
        ) by {
            if w < head.len() {
                assert(live_keys(vs, i)[w] == vs[i].0);
            } else {
                assert(live_keys(vs, i)[w] == rest[w - head.len()]);
            }
        }
    }
}

fn rename_entries_exec(
    map: &RenameMap,
    dn: &Vec<String>,
    cn: &Vec<String>,
    sorts: bool,
    keep: Ghost<spec_fn(Seq<char>) -> bool>,
    to: Ghost<spec_fn(Seq<char>) -> PlanStep>,
) -> (r: Vec<TheoryEndofunctor>)
    requires
        forall|k: Seq<char>| map@.contains_key(k) ==> #[trigger] keep@(k) == (k != map@[k] && names_view(dn@).contains(k) && names_view(cn@).contains(map@[k])),
        forall|k: Seq<char>| #[trigger] to@(k) == (if sorts {
            PlanStep::RenameSort(k, map@[k])
        } else {
            PlanStep::RenameOp(k, map@[k])
        }),
    ensures
        realizes_plan(r@, select_from(live_keys(entry_views(map.entries@), 0), keep@, to@, 0)),
{
    let keys = crate::pushout::live_keys_exec(map);
    let ghost src = live_keys(entry_views(map.entries@), 0);
    proof {
        lemma_live_keys_in_dom(map.entries@, 0);
    }
    let mut out: Vec<TheoryEndofunctor> = Vec::new();
    let ghost mut done: Seq<PlanStep> = Seq::empty();
    let mut i: usize = 0;
    while i < keys.len()
        invariant
            src == live_keys(entry_views(map.entries@), 0),
            names_view(keys@) == src,
            forall|w: int| 0 <= w < src.len() ==> map@.contains_key(#[trigger] src[w]),
            forall|k: Seq<char>| map@.contains_key(k) ==> #[trigger] keep@(k) == (k != map@[k] && names_view(dn@).contains(k) && names_view(cn@).contains(map@[k])),
            forall|k: Seq<char>| #[trigger] to@(k) == (if sorts {
                PlanStep::RenameSort(k, map@[k])
            } else {
                PlanStep::RenameOp(k, map@[k])
            }),
            i <= src.len(),
            realizes_plan(out@, done),
            done + select_from(src, keep@, to@, i as int) == select_from(src, keep@, to@, 0),
        decreases src.len() - i,
    {
        let k = &keys[i];
        proof {
            assert(src[i as int] == k@);
            assert(map@.contains_key(src[i as int]));
            lemma_select_step(src, keep@, to@, done, i as int);
        }
        match map.get(k) {
            Some(v) => {
                if *k != *v && crate::term::names_contain(dn, k) && crate::term::names_contain(cn, v) {
                    let e = if sorts {
                        mk_rename_sort(k, v)
                    } else {
                        mk_rename_op(k, v)
                    };
                    proof {
                        lemma_realizes_push(out@, done, e, to@(src[i as int]));
                        done = done.push(to@(src[i as int]));
                    }
                    out.push(e);
                }
            },
            None => {},
        }
        i = i + 1;
    }
    proof {
        lemma_select_end(src, keep@, to@, done);
    }
    out
}


fn add_ops_exec(m: &TheoryMorphism, d: &Theory, c: &Theory) -> (r: Vec<TheoryEndofunctor>)
    ensures
        realizes_plan(r@, select_from(c@.ops, keep_add_op(*m, d@), to_add_op(), 0)),
{
    let mut after: Vec<String> = Vec::new();
    let mut j: usize = 0;
    while j < d.ops.len()
        invariant
            j <= d.ops@.len(),
            after@.len() == j,
            forall|k: int| 0 <= k < j ==> #[trigger] after@[k]@ == map_name(m.op_map@, d.ops@[k].name@),
        decreases d.ops@.len() - j,
    {
        after.push(m.op_map.lookup_or_same(&d.ops[j].name));
        j = j + 1;
    }
    proof {
        assert(names_view(after@) =~= ops_after(*m, d@));
    }
    let ghost src = c@.ops;
    let mut out: Vec<TheoryEndofunctor> = Vec::new();
    let ghost mut done: Seq<PlanStep> = Seq::empty();
    let mut i: usize = 0;
    while i < c.ops.len()
        invariant
            src == c@.ops,
            names_view(after@) == ops_after(*m, d@),
            i <= src.len(),
            realizes_plan(out@, done),
            done + select_from(src, keep_add_op(*m, d@), to_add_op(), i as int) == select_from(src, keep_add_op(*m, d@), to_add_op(), 0),
        decreases src.len() - i,
    {
        let o = &c.ops[i];
        proof {
            assert(src[i as int] == o@);
            lemma_select_step(src, keep_add_op(*m, d@), to_add_op(), done, i as int);
        }
        if !crate::term::names_contain(&after, &o.name) {
            let e = mk_add_op(o.copy());
            proof {
                lemma_realizes_push(out@, done, e, to_add_op()(src[i as int]));
                done = done.push(to_add_op()(src[i as int]));
            }
            out.push(e);
        }
        i = i + 1;
    }
    proof {
        lemma_select_end(src, keep_add_op(*m, d@), to_add_op(), done);
    }
    out
}

fn carried_exec(m: &TheoryMorphism, d: &Theory, e: &Equation) -> (r: bool)
    ensures
        r == equation_carried(*m, d@, e@),
{
    let mut j: usize = 0;
    while j < d.eqs.len()
        invariant
            j <= d.eqs@.len(),
            forall|k: int| 0 <= k < j ==> !(rename_ops_spec(#[trigger] d@.eqs[k].lhs, m.op_map@) == e@.lhs && rename_ops_spec(
                d@.eqs[k].rhs,
                m.op_map@,
            ) == e@.rhs),
        decreases d.eqs@.len() - j,
    {
        let renamed = d.eqs[j].rename_ops(&m.op_map);
        proof {
            assert(d@.eqs[j as int] == d.eqs@[j as int]@);
        }
        if renamed.lhs == e.lhs && renamed.rhs == e.rhs {
            proof {
                assert(rename_ops_spec(d@.eqs[j as int].lhs, m.op_map@) == e@.lhs && rename_ops_spec(d@.eqs[j as int].rhs, m.op_map@)
                    == e@.rhs);
            }
            return true;
        }
        j = j + 1;
    }
    false
}

fn add_eqs_exec(m: &TheoryMorphism, d: &Theory, c: &Theory) -> (r: Vec<TheoryEndofunctor>)
    ensures
        realizes_plan(r@, select_from(c@.eqs, keep_add_eq(*m, d@), to_add_eq(), 0)),
{
    let dn = eq_name_list(d);
    let ghost src = c@.eqs;
    let mut out: Vec<TheoryEndofunctor> = Vec::new();
    let ghost mut done: Seq<PlanStep> = Seq::empty();
    let mut i: usize = 0;
    while i < c.eqs.len()
        invariant
            src == c@.eqs,
            names_view(dn@) == model_eq_names(d@),
            i <= src.len(),
            realizes_plan(out@, done),
            done + select_from(src, keep_add_eq(*m, d@), to_add_eq(), i as int) == select_from(src, keep_add_eq(*m, d@), to_add_eq(), 0),
        decreases src.len() - i,
    {
        let e = &c.eqs[i];
        proof {
            assert(src[i as int] == e@);
            lemma_select_step(src, keep_add_eq(*m, d@), to_add_eq(), done, i as int);
        }
        if !carried_exec(m, d, e) && !crate::term::names_contain(&dn, &e.name) {
            let f = mk_add_eq(e.copy());
            proof {
                lemma_realizes_push(out@, done, f, to_add_eq()(src[i as int]));
                done = done.push(to_add_eq()(src[i as int]));
            }
            out.push(f);
        }
        i = i + 1;
    }
    proof {
        lemma_select_end(src, keep_add_eq(*m, d@), to_add_eq(), done);
    }
    out
}

fn sort_ready_exec(s: &Sort, added: &Vec<String>) -> (r: bool)
    ensures
        r == sort_ready(s@, names_view(added@)),
{
    let mut k: usize = 0;
    while k < s.params.len()
        invariant
            k <= s.params@.len(),
            forall|q: int| 0 <= q < k ==> names_view(added@).contains(#[trigger] s@.params[q].1.head),
        decreases s.params@.len() - k,
    {
        proof {
            assert(s@.params[k as int].1 == s.params@[k as int].sort@);
        }
        if !crate::term::names_contain(added, s.params[k].sort.head()) {
            return false;
        }
        k = k + 1;
    }
    true
}

fn partition_ready(rem: &Vec<Sort>, added: &Vec<String>) -> (r: (Vec<Sort>, Vec<Sort>))
    ensures
        crate::pushout::models(r.0@) == select_from(crate::pushout::models(rem@), ready_in(names_view(added@)), same_sort(), 0),
        crate::pushout::models(r.1@) == select_from(crate::pushout::models(rem@), unready_in(names_view(added@)), same_sort(), 0),
{
    let ghost src = crate::pushout::models(rem@);
    let ghost av = names_view(added@);
    let mut ready: Vec<Sort> = Vec::new();
    let mut not_ready: Vec<Sort> = Vec::new();
    let mut i: usize = 0;
    proof {
        assert(crate::pushout::models(ready@) =~= Seq::<SSort>::empty());
        assert(crate::pushout::models(not_ready@) =~= Seq::<SSort>::empty());
    }
    while i < rem.len()
        invariant
            src == crate::pushout::models(rem@),
            av == names_view(added@),
            i <= src.len(),
            crate::pushout::models(ready@) + select_from(src, ready_in(av), same_sort(), i as int) == select_from(src, ready_in(av), same_sort(), 0),
            crate::pushout::models(not_ready@) + select_from(src, unready_in(av), same_sort(), i as int) == select_from(src, unready_in(av), same_sort(), 0),
        decreases src.len() - i,
    {
        let s = &rem[i];
        proof {
            assert(src[i as int] == s@);
            lemma_select_step(src, ready_in(av), same_sort(), crate::pushout::models(ready@), i as int);
            lemma_select_step(src, unready_in(av), same_sort(), crate::pushout::models(not_ready@), i as int);
        }
        let ghost r0 = crate::pushout::models(ready@);
        let ghost n0 = crate::pushout::models(not_ready@);
        if sort_ready_exec(s, added) {
            ready.push(s.copy());
            proof {
                assert(crate::pushout::models(ready@) =~= r0.push(s@));
            }
        } else {
            not_ready.push(s.copy());
            proof {
                assert(crate::pushout::models(not_ready@) =~= n0.push(s@));
            }
        }
        i = i + 1;
    }
    proof {
        lemma_select_end(src, ready_in(av), same_sort(), crate::pushout::models(ready@));
        lemma_select_end(src, unready_in(av), same_sort(), crate::pushout::models(not_ready@));
    }
    (ready, not_ready)
}

fn topo_exec(rem: Vec<Sort>, added: Vec<String>) -> (r: Vec<Sort>)
    ensures
        crate::pushout::models(r@) == topo_order(crate::pushout::models(rem@), names_view(added@)),
{
    let ghost total = topo_order(crate::pushout::models(rem@), names_view(added@));
    let mut remaining = rem;
    let mut added = added;
    let mut sorted: Vec<Sort> = Vec::new();
    let mut stuck = false;
    proof {
        assert(crate::pushout::models(sorted@) + total =~= total);
    }
    while remaining.len() > 0 && !stuck
        invariant
            crate::pushout::models(sorted@) + topo_order(crate::pushout::models(remaining@), names_view(added@)) == total,
            stuck ==> topo_order(crate::pushout::models(remaining@), names_view(added@)) == Seq::<SSort>::empty(),
        decreases remaining@.len(), (if stuck { 0int } else { 1int }),
    {
        let ghost rm = crate::pushout::models(remaining@);
        let ghost av = names_view(added@);
        let (ready, not_ready) = partition_ready(&remaining, &added);
        if ready.len() == 0 {
            stuck = true;
        } else {
            proof {
                lemma_select_split(rm, ready_in(av), unready_in(av), same_sort(), same_sort(), 0);
            }
            let ghost rv = crate::pushout::models(ready@);
            let ghost s0 = crate::pushout::models(sorted@);
            let mut k: usize = 0;
            while k < ready.len()
                invariant
                    k <= ready@.len(),
                    rv == crate::pushout::models(ready@),
                    names_view(added@) == av + Seq::new(k as nat, |q: int| rv[q].name),
                    crate::pushout::models(sorted@) == s0 + rv.take(k as int),
                decreases ready@.len() - k,
            {
                let ghost a0 = names_view(added@);
                let ghost t0 = crate::pushout::models(sorted@);
                added.push(ready[k].name.clone());
                sorted.push(ready[k].copy());
                proof {
                    assert(rv[k as int] == ready@[k as int]@);
                    assert(names_view(added@) =~= a0.push(rv[k as int].name));
                    assert(crate::pushout::models(sorted@) =~= t0.push(rv[k as int]));
                    assert(names_view(added@) =~= av + Seq::new((k + 1) as nat, |q: int| rv[q].name));
                    assert(crate::pushout::models(sorted@) =~= s0 + rv.take(k + 1));
                }
                k = k + 1;
            }
            proof {
                assert(rv.take(rv.len() as int) =~= rv);
                assert(Seq::new(rv.len(), |q: int| rv[q].name) =~= Seq::new(k as nat, |q: int| rv[q].name));
                assert(s0 + rv + topo_order(crate::pushout::models(not_ready@), names_view(added@)) =~= s0 + (rv
                    + topo_order(crate::pushout::models(not_ready@), names_view(added@))));
            }
            remaining = not_ready;
        }
    }
    proof {
        let o = crate::pushout::models(sorted@);
        assert(o + Seq::<SSort>::empty() =~= o);
    }
    sorted
}


fn add_sorts_exec(m: &TheoryMorphism, d: &Theory, c: &Theory) -> (r: Vec<TheoryEndofunctor>)
    ensures
        ({
            let sorted = topo_order(sorts_to_add(*m, d@, c@), sorts_after(*m, d@));
            realizes_plan(r@, Seq::new(sorted.len(), |k: int| PlanStep::AddSort(sorted[k])))
        }),
{
    let mut after: Vec<String> = Vec::new();
    let mut j: usize = 0;
    while j < d.sorts.len()
        invariant
            j <= d.sorts@.len(),
            after@.len() == j,
            forall|k: int| 0 <= k < j ==> #[trigger] after@[k]@ == map_name(m.sort_map@, d.sorts@[k].name@),
        decreases d.sorts@.len() - j,
    {
        after.push(m.sort_map.lookup_or_same(&d.sorts[j].name));
        j = j + 1;
    }
    proof {
        assert(names_view(after@) =~= sorts_after(*m, d@));
    }
    let ghost src = c@.sorts;
    let mut to_add: Vec<Sort> = Vec::new();
    let mut i: usize = 0;
    proof {
        assert(crate::pushout::models(to_add@) =~= Seq::<SSort>::empty());
    }
    while i < c.sorts.len()
        invariant
            src == c@.sorts,
            names_view(after@) == sorts_after(*m, d@),
            i <= src.len(),
            crate::pushout::models(to_add@) + select_from(src, keep_add_sort(*m, d@), same_sort(), i as int) == select_from(
                src,
                keep_add_sort(*m, d@),
                same_sort(),
                0,
            ),
        decreases src.len() - i,
    {
        let s = &c.sorts[i];
        proof {
            assert(src[i as int] == s@);
            lemma_select_step(src, keep_add_sort(*m, d@), same_sort(), crate::pushout::models(to_add@), i as int);
        }
        if !crate::term::names_contain(&after, &s.name) {
            let ghost t0 = crate::pushout::models(to_add@);
            to_add.push(s.copy());
            proof {
                assert(crate::pushout::models(to_add@) =~= t0.push(s@));
            }
        }
        i = i + 1;
    }
    proof {
        lemma_select_end(src, keep_add_sort(*m, d@), same_sort(), crate::pushout::models(to_add@));
    }
    let sorted = topo_exec(to_add, after);
    let ghost sv = crate::pushout::models(sorted@);
    let mut out: Vec<TheoryEndofunctor> = Vec::new();
    let mut k: usize = 0;
    while k < sorted.len()
        invariant
            k <= sorted@.len(),
            sv == crate::pushout::models(sorted@),
            realizes_plan(out@, Seq::new(k as nat, |q: int| PlanStep::AddSort(sv[q]))),
        decreases sorted@.len() - k,
    {
        let e = mk_add_sort(sorted[k].copy());
        proof {
            lemma_realizes_push(out@, Seq::new(k as nat, |q: int| PlanStep::AddSort(sv[q])), e, PlanStep::AddSort(sv[k as int]));
            assert(Seq::new(k as nat, |q: int| PlanStep::AddSort(sv[q])).push(PlanStep::AddSort(sv[k as int])) =~= Seq::new(
                (k + 1) as nat,
                |q: int| PlanStep::AddSort(sv[q]),
            ));
        }
        out.push(e);
        k = k + 1;
    }
    out
}

fn append_steps(
    steps: &mut Vec<TheoryEndofunctor>,
    more: Vec<TheoryEndofunctor>,
    done: Ghost<Seq<PlanStep>>,
    next: Ghost<Seq<PlanStep>>,
)
    requires
        realizes_plan(old(steps)@, done@),
        realizes_plan(more@, next@),
    ensures
        realizes_plan(final(steps)@, done@ + next@),
{
    let mut more = more;
    proof {
        lemma_realizes_concat(steps@, done@, more@, next@);
    }
    steps.append(&mut more);
}

/// Factorize a morphism `F: D → C` into elementary endofunctors whose
/// application to `D` rebuilds `C`: drops (equations, operations, sorts),
/// then renames (sorts, operations), then additions (sorts in dependency
/// order, operations, equations). Never fails.
pub fn factorize(morphism: &TheoryMorphism, domain: &Theory, codomain: &Theory) -> (r: Result<Factorization, GatError>)
    ensures
        r matches Ok(f) && realizes_plan(f.steps@, factor_plan(*morphism, domain@, codomain@)) && f.domain@ == morphism.domain@
            && f.codomain@ == morphism.codomain@,
{
    let ghost m = *morphism;
    let ghost d = domain@;
    let ghost c = codomain@;
    let mut steps = drop_eqs_exec(domain, codomain);
    let ghost p1 = select_from(d.eqs, keep_drop_eq(c), to_drop_eq(), 0);
    append_steps(&mut steps, drop_ops_exec(morphism, domain, codomain), Ghost(p1), Ghost(select_from(d.ops, keep_drop_op(m, c), to_drop_op(), 0)));
    let ghost p2 = p1 + select_from(d.ops, keep_drop_op(m, c), to_drop_op(), 0);
    append_steps(&mut steps, drop_sorts_exec(morphism, domain, codomain), Ghost(p2), Ghost(select_from(d.sorts, keep_drop_sort(m, c), to_drop_sort(), 0)));
    let ghost p3 = p2 + select_from(d.sorts, keep_drop_sort(m, c), to_drop_sort(), 0);
    let dsn = sort_name_list(domain);
    let csn = sort_name_list(codomain);
    let don = op_name_list(domain);
    let con = op_name_list(codomain);
    let rs = rename_entries_exec(&morphism.sort_map, &dsn, &csn, true, Ghost(keep_rename_sort(m, d, c)), Ghost(to_rename_sort(m)));
    append_steps(
        &mut steps,
        rs,
        Ghost(p3),
        Ghost(select_from(live_keys(entry_views(m.sort_map.entries@), 0), keep_rename_sort(m, d, c), to_rename_sort(m), 0)),
    );
    let ghost p4 = p3 + select_from(live_keys(entry_views(m.sort_map.entries@), 0), keep_rename_sort(m, d, c), to_rename_sort(m), 0);
    let ro = rename_entries_exec(&morphism.op_map, &don, &con, false, Ghost(keep_rename_op(m, d, c)), Ghost(to_rename_op(m)));
    append_steps(
        &mut steps,
        ro,
        Ghost(p4),
        Ghost(select_from(live_keys(entry_views(m.op_map.entries@), 0), keep_rename_op(m, d, c), to_rename_op(m), 0)),
    );
    let ghost p5 = p4 + select_from(live_keys(entry_views(m.op_map.entries@), 0), keep_rename_op(m, d, c), to_rename_op(m), 0);
    let ghost sorted = topo_order(sorts_to_add(m, d, c), sorts_after(m, d));
    append_steps(&mut steps, add_sorts_exec(morphism, domain, codomain), Ghost(p5), Ghost(Seq::new(sorted.len(), |k: int| PlanStep::AddSort(sorted[k]))));
    let ghost p6 = p5 + Seq::new(sorted.len(), |k: int| PlanStep::AddSort(sorted[k]));
    append_steps(&mut steps, add_ops_exec(morphism, domain, codomain), Ghost(p6), Ghost(select_from(c.ops, keep_add_op(m, d), to_add_op(), 0)));
    let ghost p7 = p6 + select_from(c.ops, keep_add_op(m, d), to_add_op(), 0);
    append_steps(&mut steps, add_eqs_exec(morphism, domain, codomain), Ghost(p7), Ghost(select_from(c.eqs, keep_add_eq(m, d), to_add_eq(), 0)));
    proof {
        let p8 = p7 + select_from(c.eqs, keep_add_eq(m, d), to_add_eq(), 0);
        assert(p8 =~= factor_plan(m, d, c));
    }
    Ok(Factorization { steps, domain: morphism.domain.clone(), codomain: morphism.codomain.clone() })
}

/// Apply the transforms of the steps from position `i` on, in order, to a
/// theory model; the first failure stops.
pub open spec fn apply_steps_from(steps: Seq<TheoryEndofunctor>, i: int, t: STheory) -> Result<STheory, SGatError>
    decreases (if 0 <= i < steps.len() { steps.len() - i } else { 0 }) as nat,
{
    if 0 <= i < steps.len() {
        match transform_spec(steps[i].transform, t) {
            Err(e) => Err(e),
            Ok(t2) => apply_steps_from(steps, i + 1, t2),
        }
    } else {
        Ok(t)
    }
}

/// The error for a codomain sort (or, unless `sort`, operation) that the
/// factorized theory lacks.
pub open spec fn missing_after_error(sort: bool, n: Seq<char>) -> SGatError {
    SGatError::FactorizationError(
        "factorized theory missing "@ + (if sort {
            "sort"@
        } else {
            "op"@
        }) + " '"@ + n + "' from codomain"@,
    )
}

/// What [`validate_factorization`] gives: the steps applied to the domain,
/// then the first codomain sort, then operation, that the result lacks.
pub open spec fn validation_outcome(steps: Seq<TheoryEndofunctor>, d: STheory, c: STheory) -> Result<(), SGatError> {
    match apply_steps_from(steps, 0, d) {
        Err(e) => Err(e),
        Ok(t) => match crate::pushout::first_missing(model_sort_names(c), model_sort_names(t), 0) {
            Some(n) => Err(missing_after_error(true, n)),
            None => match crate::pushout::first_missing(model_op_names(c), model_op_names(t), 0) {
                Some(n) => Err(missing_after_error(false, n)),
                None => Ok(()),
            },
        },
    }
}

fn missing_after_exec(sort: bool, n: &String) -> (e: GatError)
    ensures
        e@ == missing_after_error(sort, n@),
{
    proof {
        reveal_strlit("factorized theory missing ");
        reveal_strlit("sort");
        reveal_strlit("op");
        reveal_strlit(" '");
        reveal_strlit("' from codomain");
    }
    let mut msg = String::new();
    msg.append("factorized theory missing ");
    if sort {
        msg.append("sort");
    } else {
        msg.append("op");
    }
    msg.append(" '");
    msg.append(n.as_str());
    msg.append("' from codomain");
    proof {
        let k: Seq<char> = if sort {
            "sort"@
        } else {
            "op"@
        };
        assert(msg@ =~= "factorized theory missing "@ + k + " '"@ + n@ + "' from codomain"@);
    }
    GatError::FactorizationError(msg)
}

pub(crate) fn first_missing_exec(names: &Vec<String>, present: &Vec<String>) -> (r: Option<String>)
    ensures
        crate::term::opt_name_view(r) == crate::pushout::first_missing(names_view(names@), names_view(present@), 0),
{
    let ghost nv = names_view(names@);
    let mut i: usize = 0;
    while i < names.len()
        invariant
            nv == names_view(names@),
            i <= nv.len(),
            crate::pushout::first_missing(nv, names_view(present@), i as int) == crate::pushout::first_missing(nv, names_view(present@), 0),
        decreases nv.len() - i,
    {
        proof {
            assert(nv[i as int] == names[i as int]@);
        }
        if !crate::term::names_contain(present, &names[i]) {
            return Some(names[i].clone());
        }
        i = i + 1;
    }
    None
}

/// Check that applying a factorization's steps to the domain yields a
/// theory with every sort and operation of the codomain.
pub fn validate_factorization(factorization: &Factorization, domain: &Theory, codomain: &Theory) -> (r: Result<(), GatError>)
    ensures
        match validation_outcome(factorization.steps@, domain@, codomain@) {
            Ok(()) => r is Ok,
            Err(e) => r matches Err(x) && x@ == e,
        },
{
    let ghost steps = factorization.steps@;
    let mut current = domain.copy();
    let mut i: usize = 0;
    while i < factorization.steps.len()
        invariant
            steps == factorization.steps@,
            i <= steps.len(),
            apply_steps_from(steps, 0, domain@) == apply_steps_from(steps, i as int, current@),
        decreases steps.len() - i,
    {
        current = match factorization.steps[i].transform.apply(&current) {
            Ok(t) => t,
            Err(e) => {
                return Err(e);
            },
        };
        i = i + 1;
    }
    match first_missing_exec(&sort_name_list(codomain), &sort_name_list(&current)) {
        Some(n) => {
            return Err(missing_after_exec(true, &n));
        },
        None => {},
    }
    match first_missing_exec(&op_name_list(codomain), &op_name_list(&current)) {
        Some(n) => {
            return Err(missing_after_exec(false, &n));
        },
        None => {},
    }
    Ok(())
}

/// A kept item's image is among the selected ones.
proof fn lemma_select_contains<A, B>(s: Seq<A>, keep: spec_fn(A) -> bool, f: spec_fn(A) -> B, i: int, q: int)
    requires
        0 <= i <= q < s.len(),
        keep(s[q]),
    ensures
        select_from(s, keep, f, i).contains(f(s[q])),
    decreases q - i,
{
    let head = if keep(s[i]) {
        seq![f(s[i])]
    } else {
        Seq::<B>::empty()
    };
    let rest = select_from(s, keep, f, i + 1);
    assert(select_from(s, keep, f, i) == head + rest);
    if i == q {
        assert((head + rest)[0] == f(s[q]));
    } else {
        lemma_select_contains(s, keep, f, i + 1, q);
        let k = choose|k: int| 0 <= k < rest.len() && rest[k] == f(s[q]);
        assert((head + rest)[head.len() + k] == f(s[q]));
    }
}

/// Every selected item is the image of an item.
proof fn lemma_select_images<A, B>(s: Seq<A>, keep: spec_fn(A) -> bool, f: spec_fn(A) -> B, i: int)
    requires
        0 <= i,
    ensures
        forall|k: int|
            0 <= k < select_from(s, keep, f, i).len() ==> exists|w: int|
                0 <= w < s.len() && #[trigger] select_from(s, keep, f, i)[k] == f(s[w]),
    decreases (if 0 <= i < s.len() { s.len() - i } else { 0 }) as nat,
{
    if i < s.len() {
        lemma_select_images(s, keep, f, i + 1);
        let head = if keep(s[i]) {
            seq![f(s[i])]
        } else {
            Seq::<B>::empty()
        };
        let rest = select_from(s, keep, f, i + 1);
        assert(select_from(s, keep, f, i) == head + rest);
        assert forall|k: int| 0 <= k < (head + rest).len() implies exists|w: int|
            0 <= w < s.len() && #[trigger] (head + rest)[k] == f(s[w]) by {
            if k < head.len() {
                assert((head + rest)[k] == f(s[i]));
            } else {
                assert((head + rest)[k] == rest[k - head.len()]);
            }
        }
    }
}

/// Applying the steps from `i` on succeeds, and the result holds `e` when
/// the step at `j` adds `e`, every later step adds an equation, and either
/// `j` is still ahead or `t` already holds `e`.
proof fn lemma_steps_keep_equation(
    steps: Seq<TheoryEndofunctor>,
    plan: Seq<PlanStep>,
    i: int,
    t: STheory,
    e: SEquation,
    j: int,
)
    requires
        realizes_plan(steps, plan),
        0 <= i,
        0 <= j < plan.len(),
        plan[j] == PlanStep::AddEquation(e),
        forall|k: int| j < k < plan.len() ==> #[trigger] plan[k] is AddEquation,
        i <= j || t.eqs.contains(e),
    ensures
        apply_steps_from(steps, i, t) matches Ok(r) && r.eqs.contains(e),
    decreases plan.len() - i,
{
    reveal(transform_spec);
    if i < steps.len() {
        assert(realizes(steps[i], plan[i]));
        let t2 = match transform_spec(steps[i].transform, t) {
            Ok(t2) => t2,
            Err(_) => t,
        };
        assert(transform_spec(steps[i].transform, t) == Ok::<STheory, SGatError>(t2));
        if i >= j {
            let q = plan[i]->AddEquation_0;
            assert(t2.eqs == t.eqs.push(q));
            if i == j {
                assert(t2.eqs[t.eqs.len() as int] == e);
            } else {
                let w = choose|w: int| 0 <= w < t.eqs.len() && t.eqs[w] == e;
                assert(t2.eqs[w] == e);
            }
        }
        lemma_steps_keep_equation(steps, plan, i + 1, t2, e, j);
    }
}

/// Every codomain equation whose name the domain lacks, and onto whose two
/// sides the morphism's renaming carries no domain equation, is an
/// equation, as it is, of the theory that the factorization's steps make
/// of the domain.
pub proof fn lemma_factorization_adds_missing_equations(
    steps: Seq<TheoryEndofunctor>,
    m: TheoryMorphism,
    d: STheory,
    c: STheory,
    e: SEquation,
)
    requires
        realizes_plan(steps, factor_plan(m, d, c)),
        c.eqs.contains(e),
        !model_eq_names(d).contains(e.name),
        !(exists|i: int|
            0 <= i < d.eqs.len() && rename_ops_spec(#[trigger] d.eqs[i].lhs, m.op_map@) == e.lhs
                && rename_ops_spec(d.eqs[i].rhs, m.op_map@) == e.rhs),
    ensures
        apply_steps_from(steps, 0, d) matches Ok(r) && r.eqs.contains(e),
{
    let plan = factor_plan(m, d, c);
    let sorted = topo_order(sorts_to_add(m, d, c), sorts_after(m, d));
    let eqseg = select_from(c.eqs, keep_add_eq(m, d), to_add_eq(), 0);
    let prefix = drop_plan(m, d, c) + rename_plan(m, d, c) + (Seq::new(sorted.len(), |k: int| PlanStep::AddSort(sorted[k]))
        + select_from(c.ops, keep_add_op(m, d), to_add_op(), 0));
    assert(plan =~= prefix + eqseg);
    let q = choose|q: int| 0 <= q < c.eqs.len() && c.eqs[q] == e;
    assert(!equation_carried(m, d, e));
    assert(keep_add_eq(m, d)(c.eqs[q]));
    lemma_select_contains(c.eqs, keep_add_eq(m, d), to_add_eq(), 0, q);
    assert(to_add_eq()(c.eqs[q]) == PlanStep::AddEquation(e));
    let p = choose|p: int| 0 <= p < eqseg.len() && eqseg[p] == PlanStep::AddEquation(e);
    let j = prefix.len() + p;
    assert(plan[j] == PlanStep::AddEquation(e));
    lemma_select_images(c.eqs, keep_add_eq(m, d), to_add_eq(), 0);
    assert forall|k: int| j < k < plan.len() implies #[trigger] plan[k] is AddEquation by {
        assert(plan[k] == eqseg[k - prefix.len()]);
        let w = choose|w: int| 0 <= w < c.eqs.len() && eqseg[k - prefix.len()] == to_add_eq()(c.eqs[w]);
    }
    lemma_steps_keep_equation(steps, plan, 0, d, e, j);
}

} // verus!
