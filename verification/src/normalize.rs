//! Normalization of terms by directed equations used as rewrite rules.
use vstd::prelude::*;

use crate::eq::{DirectedEquation, rules_view, subst};
use crate::maps::Subst;
use crate::matching::{match_pattern, match_pattern_spec};
use crate::term::{CaseBranch, SBranch, STerm, Term, lemma_app_view, lemma_case_view, view_branches, view_terms};

verus! {

/// The counters threaded through normalization: rewrites performed so
/// far, and the remaining budget of rewriting passes.
pub struct NormState {
    /// Rewrites performed.
    pub steps: nat,
    /// Remaining passes.
    pub fuel: nat,
}

/// The pass budget a normalization starts with.
pub open spec fn initial_fuel() -> nat {
    0xffff_ffff_ffff_ffffnat
}

/// Count one rewrite (saturating at the largest step count).
pub open spec fn count_step(n: nat) -> nat {
    if n < usize::MAX {
        n + 1
    } else {
        n
    }
}

/// Never more budget than `f`.
pub open spec fn cap(st: NormState, f: nat) -> NormState {
    NormState { steps: st.steps, fuel: if st.fuel <= f { st.fuel } else { f } }
}

/// The index of the first rule from `i` on whose left-hand side matches
/// `t`.
pub open spec fn first_match(rules: Seq<(STerm, STerm)>, t: STerm, i: int) -> Option<int>
    decreases (if 0 <= i < rules.len() { rules.len() - i } else { 0 }) as nat,
{
    if 0 <= i < rules.len() {
        if match_pattern_spec(rules[i].0, t) is Some {
            Some(i)
        } else {
            first_match(rules, t, i + 1)
        }
    } else {
        None
    }
}

/// The substitution sending the first `n` binders to the corresponding
/// arguments, in order.
pub open spec fn binder_subst(binders: Seq<Seq<char>>, args: Seq<STerm>, n: int) -> Map<Seq<char>, STerm>
    decreases n,
{
    if n <= 0 {
        Map::empty()
    } else {
        binder_subst(binders, args, n - 1).insert(binders[n - 1], args[n - 1])
    }
}

/// The index of the first branch from `i` on with the given constructor.
pub open spec fn find_branch(bs: Seq<SBranch>, ctor: Seq<char>, i: int) -> Option<int>
    decreases (if 0 <= i < bs.len() { bs.len() - i } else { 0 }) as nat,
{
    if 0 <= i < bs.len() {
        if bs[i].constructor == ctor {
            Some(i)
        } else {
            find_branch(bs, ctor, i + 1)
        }
    } else {
        None
    }
}

/// Case contraction: when the scrutinee is an application of a
/// constructor and the first branch for that constructor binds as many
/// names as it has arguments, that branch's body with the binders
/// replaced by the arguments.
pub open spec fn contract(scrutinee: STerm, bs: Seq<SBranch>) -> Option<STerm> {
    match scrutinee {
        STerm::App { op, args } => match find_branch(bs, op, 0) {
            Some(k) => if bs[k].binders.len() == args.len() {
                Some(subst(bs[k].body, binder_subst(bs[k].binders, args, args.len() as int)))
            } else {
                None
            },
            None => None,
        },
        _ => None,
    }
}

/// One pass over `t` with budget `st`: its subterms normalized, then
/// either a contraction to re-process (`true`) or a term to try the rules
/// on at the root (`false`), with the counters afterwards. A `let` is
/// contracted by substituting its normalized bound value; a `case` whose
/// normalized scrutinee selects a branch is contracted to that branch.
pub open spec fn pass_spec(t: STerm, rules: Seq<(STerm, STerm)>, max: nat, st: NormState) -> (bool, STerm, NormState)
    decreases st.fuel, 2nat, 0nat,
{
    let f = st.fuel;
    match t {
        STerm::Let { name, bound, body } => {
            let r = norm(*bound, rules, max, st);
            (true, subst(*body, Map::empty().insert(name, r.0)), cap(r.2, f))
        },
        STerm::App { op, args } => {
            let r = norm_args(args, rules, max, 0, st);
            (false, STerm::App { op, args: r.0 }, cap(r.1, f))
        },
        STerm::Case { scrutinee, branches } => {
            let r = norm(*scrutinee, rules, max, st);
            match contract(r.0, branches) {
                Some(next) => (true, next, cap(r.2, f)),
                None => {
                    let rb = norm_branches(branches, rules, max, 0, cap(r.2, f));
                    (false, STerm::Case { scrutinee: Box::new(r.0), branches: rb.0 }, cap(rb.1, f))
                },
            }
        },
        _ => (false, t, st),
    }
}

/// Innermost-first normalization of `t` under `rules` with the step limit
/// `max`: the term reached, whether the budget ran out, and the counters
/// afterwards.
///
/// While the step limit and the pass budget last, a pass normalizes the
/// subterms; a contraction is processed again, and otherwise the first
/// rule that matches at the root rewrites the term (one step) and the
/// result is processed again. The step limit is checked at the start of
/// each pass; when no rule matches, the term is returned and flagged
/// exhausted exactly when the steps have reached the limit.
pub open spec fn norm(t: STerm, rules: Seq<(STerm, STerm)>, max: nat, st: NormState) -> (STerm, bool, NormState)
    decreases st.fuel, 0nat, 0nat,
{
    if st.fuel == 0 || st.steps >= max {
        (t, true, st)
    } else {
        let f = (st.fuel - 1) as nat;
        let p = pass_spec(t, rules, max, NormState { steps: st.steps, fuel: f });
        if p.0 {
            norm(p.1, rules, max, cap(p.2, f))
        } else {
            root_step(p.1, rules, max, cap(p.2, f))
        }
    }
}

/// Try the rules at the root of a term whose subterms are normalized.
pub open spec fn root_step(t: STerm, rules: Seq<(STerm, STerm)>, max: nat, st: NormState) -> (STerm, bool, NormState)
    decreases st.fuel, 0nat, 1nat,
{
    match first_match(rules, t, 0) {
        Some(k) => {
            let s = match_pattern_spec(rules[k].0, t)->0;
            norm(subst(rules[k].1, s), rules, max, NormState { steps: count_step(st.steps), fuel: st.fuel })
        },
        None => (t, st.steps >= max, st),
    }
}

/// Normalize the arguments from position `i` on, in order.
pub open spec fn norm_args(args: Seq<STerm>, rules: Seq<(STerm, STerm)>, max: nat, i: int, st: NormState) -> (Seq<STerm>, NormState)
    decreases st.fuel, 1nat, (if 0 <= i < args.len() { args.len() - i } else { 0 }) as nat,
{
    if 0 <= i < args.len() {
        let r = norm(args[i], rules, max, st);
        let rest = norm_args(args, rules, max, i + 1, cap(r.2, st.fuel));
        (seq![r.0] + rest.0, rest.1)
    } else {
        (Seq::empty(), st)
    }
}

/// Normalize the branch bodies from position `i` on, in order.
pub open spec fn norm_branches(bs: Seq<SBranch>, rules: Seq<(STerm, STerm)>, max: nat, i: int, st: NormState) -> (Seq<SBranch>, NormState)
    decreases st.fuel, 1nat, (if 0 <= i < bs.len() { bs.len() - i } else { 0 }) as nat,
{
    if 0 <= i < bs.len() {
        let r = norm(bs[i].body, rules, max, st);
        let rest = norm_branches(bs, rules, max, i + 1, cap(r.2, st.fuel));
        (seq![SBranch { constructor: bs[i].constructor, binders: bs[i].binders, body: r.0 }] + rest.0, rest.1)
    } else {
        (Seq::empty(), st)
    }
}

/// Whether some rewrite still applies to `t`: a rule's left-hand side
/// matches it or one of its subterms, or it holds a `let` or a `case`
/// that contracts.
pub open spec fn reducible(t: STerm, rules: Seq<(STerm, STerm)>) -> bool
    decreases t, 1nat,
{
    first_match(rules, t, 0) is Some || match t {
        STerm::Var(_) => false,
        STerm::Hole { .. } => false,
        STerm::App { args, .. } => args_reducible(args, rules, 0),
        STerm::Let { .. } => true,
        STerm::Case { scrutinee, branches } => contract(*scrutinee, branches) is Some || reducible(*scrutinee, rules)
            || branches_reducible(branches, rules, 0),
    }
}

/// Whether one of the terms of a list from position `i` on is reducible.
pub open spec fn args_reducible(a: Seq<STerm>, rules: Seq<(STerm, STerm)>, i: int) -> bool
    decreases a, 0nat, (if 0 <= i < a.len() { a.len() - i } else { 0 }) as nat,
{
    if 0 <= i < a.len() {
        reducible(a[i], rules) || args_reducible(a, rules, i + 1)
    } else {
        false
    }
}

/// Whether one of the branch bodies from position `i` on is reducible.
pub open spec fn branches_reducible(bs: Seq<SBranch>, rules: Seq<(STerm, STerm)>, i: int) -> bool
    decreases bs, 0nat, (if 0 <= i < bs.len() { bs.len() - i } else { 0 }) as nat,
{
    if 0 <= i < bs.len() {
        reducible(bs[i].body, rules) || branches_reducible(bs, rules, i + 1)
    } else {
        false
    }
}

/// The result of normalizing `t` from no steps and the full pass budget:
/// the term reached, and whether it is still reducible, which is when
/// normalization stopped at the budget rather than at a normal form.
pub open spec fn normalize_spec(t: STerm, rules: Seq<(STerm, STerm)>, max: nat) -> (STerm, bool) {
    let r = norm(t, rules, max, NormState { steps: 0, fuel: initial_fuel() });
    (r.0, reducible(r.0, rules))
}

/// The index of the first rule whose left-hand side matches `t`, with
/// the bindings of the match.
fn find_rule(eqs: &Vec<DirectedEquation>, t: &Term) -> (r: Option<(usize, Subst)>)
    ensures
        match r {
            Some((k, s)) => k < eqs@.len() && first_match(rules_view(eqs@), t@, 0) == Some(k as int)
                && s@ == match_pattern_spec(rules_view(eqs@)[k as int].0, t@)->0,
            None => first_match(rules_view(eqs@), t@, 0) is None,
        },
{
    let ghost rv = rules_view(eqs@);
    let mut i: usize = 0;
    while i < eqs.len()
        invariant
            rv == rules_view(eqs@),
            i <= eqs@.len(),
            first_match(rv, t@, 0) == first_match(rv, t@, i as int),
        decreases eqs@.len() - i,
    {
        match match_pattern(&eqs[i].lhs, t) {
            Some(s) => {
                return Some((i, s));
            },
            None => {},
        }
        i = i + 1;
    }
    None
}

/// The branch contraction of [`contract`].
fn contract_exec(scrutinee: &Term, bs: &Vec<CaseBranch>) -> (r: Option<Term>)
    ensures
        match r {
            Some(x) => contract(scrutinee@, view_branches(bs@)) == Some(x@),
            None => contract(scrutinee@, view_branches(bs@)) is None,
        },
{
    let ghost bv = view_branches(bs@);
    match scrutinee {
        Term::App { op, args } => {
            proof {
                lemma_app_view(*scrutinee);
            }
            let mut i: usize = 0;
            while i < bs.len()
                invariant
                    bv == view_branches(bs@),
                    scrutinee@ == (STerm::App { op: op@, args: view_terms(args@) }),
                    i <= bs@.len(),
                    find_branch(bv, op@, 0) == find_branch(bv, op@, i as int),
                decreases bs@.len() - i,
            {
                if bs[i].constructor == *op {
                    let br = &bs[i];
                    proof {
                        assert(bv[i as int] == br@);
                    }
                    if br.binders.len() != args.len() {
                        return None;
                    }
                    let mut s = Subst::new();
                    let mut k: usize = 0;
                    while k < br.binders.len()
                        invariant
                            br.binders@.len() == args@.len(),
                            k <= br.binders@.len(),
                            i < bs@.len(),
                            bv == view_branches(bs@),
                            s@ == binder_subst(bv[i as int].binders, view_terms(args@), k as int),
                            bv[i as int] == br@,
                        decreases br.binders@.len() - k,
                    {
                        s.insert(br.binders[k].clone(), args[k].deep_copy());
                        k = k + 1;
                    }
                    return Some(br.body.substitute(&s));
                }
                i = i + 1;
            }
            None
        },
        _ => None,
    }
}

fn normalize_args(
    args: &Vec<Term>,
    eqs: &Vec<DirectedEquation>,
    steps: &mut usize,
    max: usize,
    fuel: u64,
) -> (r: (Vec<Term>, u64))
    ensures
        r.1 <= fuel,
        norm_args(view_terms(args@), rules_view(eqs@), max as nat, 0, NormState { steps: *old(steps) as nat, fuel: fuel as nat })
            == (view_terms(r.0@), NormState { steps: *final(steps) as nat, fuel: r.1 as nat }),
    decreases fuel, 1nat, 0nat,
{
    let ghost av = view_terms(args@);
    let ghost rv = rules_view(eqs@);
    let ghost target = norm_args(av, rv, max as nat, 0, NormState { steps: *steps as nat, fuel: fuel as nat });
    let mut out: Vec<Term> = Vec::new();
    let mut f = fuel;
    let mut i: usize = 0;
    while i < args.len()
        invariant
            av == view_terms(args@),
            rv == rules_view(eqs@),
            i <= args@.len(),
            f <= fuel,
            out@.len() == i,
            target == norm_args(av, rv, max as nat, 0, NormState { steps: *old(steps) as nat, fuel: fuel as nat }),
            target.1 == norm_args(av, rv, max as nat, i as int, NormState { steps: *steps as nat, fuel: f as nat }).1,
            target.0 == view_terms(out@) + norm_args(av, rv, max as nat, i as int, NormState { steps: *steps as nat, fuel: f as nat }).0,
        decreases args@.len() - i,
    {
        proof {
            assert(av[i as int] == args@[i as int]@);
        }
        let ghost st_i = NormState { steps: *steps as nat, fuel: f as nat };
        let ghost old_out = view_terms(out@);
        let r = normalize_once(&args[i], eqs, steps, max, f);
        out.push(r.0);
        f = r.2;
        proof {
            assert(view_terms(out@) =~= old_out.push(r.0@));
            let rest = norm_args(av, rv, max as nat, i + 1, NormState { steps: *steps as nat, fuel: f as nat });
            assert(norm_args(av, rv, max as nat, i as int, st_i) == (seq![r.0@] + rest.0, rest.1));
            assert(old_out + (seq![r.0@] + rest.0) =~= view_terms(out@) + rest.0);
        }
        i = i + 1;
    }
    proof {
        assert(view_terms(out@) + Seq::<STerm>::empty() =~= view_terms(out@));
    }
    (out, f)
}

fn normalize_branches(
    bs: &Vec<CaseBranch>,
    eqs: &Vec<DirectedEquation>,
    steps: &mut usize,
    max: usize,
    fuel: u64,
) -> (r: (Vec<CaseBranch>, u64))
    ensures
        r.1 <= fuel,
        norm_branches(view_branches(bs@), rules_view(eqs@), max as nat, 0, NormState { steps: *old(steps) as nat, fuel: fuel as nat })
            == (view_branches(r.0@), NormState { steps: *final(steps) as nat, fuel: r.1 as nat }),
    decreases fuel, 1nat, 0nat,
{
    let ghost bv = view_branches(bs@);
    let ghost rv = rules_view(eqs@);
    let ghost target = norm_branches(bv, rv, max as nat, 0, NormState { steps: *steps as nat, fuel: fuel as nat });
    let mut out: Vec<CaseBranch> = Vec::new();
    let mut f = fuel;
    let mut i: usize = 0;
    while i < bs.len()
        invariant
            bv == view_branches(bs@),
            rv == rules_view(eqs@),
            i <= bs@.len(),
            f <= fuel,
            target == norm_branches(bv, rv, max as nat, 0, NormState { steps: *old(steps) as nat, fuel: fuel as nat }),
            target.1 == norm_branches(bv, rv, max as nat, i as int, NormState { steps: *steps as nat, fuel: f as nat }).1,
            target.0 == view_branches(out@) + norm_branches(bv, rv, max as nat, i as int, NormState { steps: *steps as nat, fuel: f as nat }).0,
        decreases bs@.len() - i,
    {
        let b = &bs[i];
        proof {
            assert(bv[i as int] == b@);
        }
        let ghost st_i = NormState { steps: *steps as nat, fuel: f as nat };
        let ghost old_out = view_branches(out@);
        let r = normalize_once(&b.body, eqs, steps, max, f);
        let nb = CaseBranch { constructor: b.constructor.clone(), binders: crate::term::clone_names(&b.binders), body: r.0 };
        proof {
            assert(nb@ == SBranch { constructor: bv[i as int].constructor, binders: bv[i as int].binders, body: r.0@ });
        }
        out.push(nb);
        f = r.2;
        proof {
            assert(view_branches(out@) =~= old_out.push(nb@));
            let rest = norm_branches(bv, rv, max as nat, i + 1, NormState { steps: *steps as nat, fuel: f as nat });
            assert(norm_branches(bv, rv, max as nat, i as int, st_i) == (seq![nb@] + rest.0, rest.1));
            assert(old_out + (seq![nb@] + rest.0) =~= view_branches(out@) + rest.0);
        }
        i = i + 1;
    }
    proof {
        assert(view_branches(out@) + Seq::<SBranch>::empty() =~= view_branches(out@));
    }
    (out, f)
}

fn pass(t: &Term, eqs: &Vec<DirectedEquation>, steps: &mut usize, max: usize, fuel: u64) -> (r: (bool, Term, u64))
    ensures
        r.2 <= fuel,
        pass_spec(t@, rules_view(eqs@), max as nat, NormState { steps: *old(steps) as nat, fuel: fuel as nat })
            == (r.0, r.1@, NormState { steps: *final(steps) as nat, fuel: r.2 as nat }),
    decreases fuel, 2nat, 0nat,
{
    match t {
        Term::Let { name, bound, body } => {
            let r = normalize_once(bound, eqs, steps, max, fuel);
            let mut s = Subst::new();
            s.insert(name.clone(), r.0);
            let next = body.substitute(&s);
            (true, next, r.2)
        },
        Term::App { op, args } => {
            proof {
                lemma_app_view(*t);
            }
            let r = normalize_args(args, eqs, steps, max, fuel);
            let nt = Term::App { op: op.clone(), args: r.0 };
            proof {
                lemma_app_view(nt);
            }
            (false, nt, r.1)
        },
        Term::Case { scrutinee, branches } => {
            proof {
                lemma_case_view(*t);
            }
            let r = normalize_once(scrutinee, eqs, steps, max, fuel);
            match contract_exec(&r.0, branches) {
                Some(next) => (true, next, r.2),
                None => {
                    let rb = normalize_branches(branches, eqs, steps, max, r.2);
                    let nt = Term::Case { scrutinee: Box::new(r.0), branches: rb.0 };
                    proof {
                        lemma_case_view(nt);
                    }
                    (false, nt, rb.1)
                },
            }
        },
        _ => (false, t.deep_copy(), fuel),
    }
}

fn normalize_once(term: &Term, eqs: &Vec<DirectedEquation>, steps: &mut usize, max: usize, fuel: u64) -> (r: (Term, bool, u64))
    ensures
        r.2 <= fuel,
        norm(term@, rules_view(eqs@), max as nat, NormState { steps: *old(steps) as nat, fuel: fuel as nat })
            == (r.0@, r.1, NormState { steps: *final(steps) as nat, fuel: r.2 as nat }),
    decreases fuel, 0nat, 0nat,
{
    let ghost rv = rules_view(eqs@);
    let ghost target = norm(term@, rv, max as nat, NormState { steps: *steps as nat, fuel: fuel as nat });
    let mut current = term.deep_copy();
    let mut f = fuel;
    loop
        invariant
            rv == rules_view(eqs@),
            f <= fuel,
            target == norm(term@, rv, max as nat, NormState { steps: *old(steps) as nat, fuel: fuel as nat }),
            norm(current@, rv, max as nat, NormState { steps: *steps as nat, fuel: f as nat }) == target,
        decreases f,
    {
        if f == 0 || *steps >= max {
            return (current, true, f);
        }
        let ghost st_start = NormState { steps: *steps as nat, fuel: f as nat };
        let ghost cur = current@;
        let g = f - 1;
        let ghost st1 = NormState { steps: *steps as nat, fuel: g as nat };
        let p = pass(&current, eqs, steps, max, g);
        let ghost ps = pass_spec(cur, rv, max as nat, st1);
        proof {
            assert(ps == (p.0, p.1@, NormState { steps: *steps as nat, fuel: p.2 as nat }));
            assert(cap(ps.2, g as nat) == ps.2);
            assert(norm(cur, rv, max as nat, st_start) == if ps.0 {
                norm(ps.1, rv, max as nat, ps.2)
            } else {
                root_step(ps.1, rv, max as nat, ps.2)
            });
        }
        if p.0 {
            current = p.1;
            f = p.2;
        } else {
            match find_rule(eqs, &p.1) {
                None => {
                    let done = *steps >= max;
                    return (p.1, done, p.2);
                },
                Some((k, s)) => {
                    let ghost before = *steps as nat;
                    if *steps < usize::MAX {
                        *steps = *steps + 1;
                    }
                    proof {
                        assert(*steps as nat == count_step(before));
                    }
                    current = eqs[k].rhs.substitute(&s);
                    f = p.2;
                },
            }
        }
    }
}

/// Normalize `term` by using `directed_eqs` as rewrite rules, innermost
/// first, performing at most `max_steps` rewrites.
pub fn normalize(term: &Term, directed_eqs: &Vec<DirectedEquation>, max_steps: usize) -> (r: Term)
    ensures
        r@ == normalize_spec(term@, rules_view(directed_eqs@), max_steps as nat).0,
{
    normalize_with_status(term, directed_eqs, max_steps).0
}

/// Normalize `term`, also reporting whether the step budget ran out: `true`
/// exactly when the term reached is still reducible, `false` at a normal form.
pub fn normalize_with_status(term: &Term, directed_eqs: &Vec<DirectedEquation>, max_steps: usize) -> (r: (Term, bool))
    ensures
        (r.0@, r.1) == normalize_spec(term@, rules_view(directed_eqs@), max_steps as nat),
{
    let mut steps: usize = 0;
    let r = normalize_once(term, directed_eqs, &mut steps, max_steps, 0xffff_ffff_ffff_ffffu64);
    let exhausted = is_reducible(&r.0, directed_eqs);
    (r.0, exhausted)
}

/// Whether some rewrite still applies to `t` (see [`reducible`]).
fn is_reducible(t: &Term, eqs: &Vec<DirectedEquation>) -> (r: bool)
    ensures
        r == reducible(t@, rules_view(eqs@)),
    decreases t,
{
    let ghost rv = rules_view(eqs@);
    if find_rule(eqs, t).is_some() {
        return true;
    }
    match t {
        Term::Var(_) => false,
        Term::Hole { .. } => false,
        Term::Let { .. } => true,
        Term::App { args, .. } => {
            proof {
                lemma_app_view(*t);
                assert forall|j: int| 0 <= j < args@.len() implies decreases_to!(*t => args@[j]) by {
                    assert(decreases_to!(*t => *args));
                }
            }
            let ghost a = view_terms(args@);
            let mut i: usize = 0;
            while i < args.len()
                invariant
                    rv == rules_view(eqs@),
                    a == view_terms(args@),
                    t@ is App && t@->args == a,
                    forall|j: int| 0 <= j < args@.len() ==> decreases_to!(*t => args@[j]),
                    i <= args@.len(),
                    args_reducible(a, rv, 0) == args_reducible(a, rv, i as int),
                decreases args@.len() - i,
            {
                proof {
                    assert(a[i as int] == args@[i as int]@);
                }
                if is_reducible(&args[i], eqs) {
                    return true;
                }
                i = i + 1;
            }
            false
        },
        Term::Case { scrutinee, branches } => {
            proof {
                lemma_case_view(*t);
                assert forall|j: int| 0 <= j < branches@.len() implies decreases_to!(*t => branches@[j]) by {
                    assert(decreases_to!(*t => *branches));
                }
            }
            if contract_exec(scrutinee, branches).is_some() {
                return true;
            }
            if is_reducible(scrutinee, eqs) {
                return true;
            }
            let ghost bv = view_branches(branches@);
            let mut i: usize = 0;
            while i < branches.len()
                invariant
                    rv == rules_view(eqs@),
                    bv == view_branches(branches@),
                    t@ is Case && t@->branches == bv,
                    forall|j: int| 0 <= j < branches@.len() ==> decreases_to!(*t => branches@[j]),
                    i <= branches@.len(),
                    branches_reducible(bv, rv, 0) == branches_reducible(bv, rv, i as int),
                decreases branches@.len() - i,
            {
                proof {
                    assert(bv[i as int].body == branches@[i as int].body@);
                }
                if is_reducible(&branches[i].body, eqs) {
                    return true;
                }
                i = i + 1;
            }
            false
        },
    }
}

// ---------------------------------------------------------------------------
// Laws
// ---------------------------------------------------------------------------

proof fn lemma_first_match_none(rules: Seq<(STerm, STerm)>, t: STerm, i: int)
    requires
        0 <= i,
        first_match(rules, t, i) is None,
    ensures
        forall|j: int| i <= j < rules.len() ==> match_pattern_spec(#[trigger] rules[j].0, t) is None,
    decreases (if 0 <= i < rules.len() { rules.len() - i } else { 0 }) as nat,
{
    if i < rules.len() {
        lemma_first_match_none(rules, t, i + 1);
    }
}

/// When normalization reports that the budget did not run out, no rule's
/// left-hand side matches the result at its root.
pub proof fn lemma_normalize_root_normal(t: STerm, rules: Seq<(STerm, STerm)>, max: nat)
    ensures
        !normalize_spec(t, rules, max).1 ==> forall|j: int|
            0 <= j < rules.len() ==> match_pattern_spec(#[trigger] rules[j].0, normalize_spec(t, rules, max).0) is None,
{
    if !normalize_spec(t, rules, max).1 {
        lemma_first_match_none(rules, normalize_spec(t, rules, max).0, 0);
    }
}

/// Normalization reports the budget exhausted exactly when the term it
/// reached is still reducible; otherwise that term is a normal form.
pub proof fn lemma_normalize_exhausted_reducible(t: STerm, rules: Seq<(STerm, STerm)>, max: nat)
    ensures
        normalize_spec(t, rules, max).1 <==> reducible(normalize_spec(t, rules, max).0, rules),
{
}

/// With a zero step limit, normalization returns its input, flagged as
/// exhausted exactly when the input is reducible.
pub proof fn lemma_normalize_zero_budget(t: STerm, rules: Seq<(STerm, STerm)>)
    ensures
        normalize_spec(t, rules, 0) == (t, reducible(t, rules)),
{
}

} // verus!
