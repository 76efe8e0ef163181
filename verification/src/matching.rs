//! First-order pattern matching of terms.
use vstd::prelude::*;

use crate::alpha::{first_order, first_order_list};
use crate::eq::{args_size, lemma_args_size, size, subst, subst_fuel};
use crate::maps::Subst;
use crate::term::{CaseBranch, SBranch, STerm, Term, lemma_app_view, lemma_case_view, view_branches, view_terms};

verus! {

/// Match a pattern model against a term model, extending the bindings
/// `s`: a pattern variable already bound must meet an equal subterm, an
/// unbound one is bound to the subterm; operations, constructors, binder
/// counts and holes must agree. Case-branch binders and `let` names are
/// bound to the term's binder names for the body only. `None` when the
/// match fails.
pub open spec fn match_spec(p: STerm, t: STerm, s: Map<Seq<char>, STerm>) -> Option<Map<Seq<char>, STerm>>
    decreases p, 0nat,
{
    match p {
        STerm::Var(x) => if s.contains_key(x) {
            if s[x] == t {
                Some(s)
            } else {
                None
            }
        } else {
            Some(s.insert(x, t))
        },
        STerm::App { op: pop, args: pargs } => match t {
            STerm::App { op: top, args: targs } => if pop == top && pargs.len() == targs.len() {
                match_list(pargs, targs, 0, s)
            } else {
                None
            },
            _ => None,
        },
        STerm::Case { scrutinee: ps, branches: pbs } => match t {
            STerm::Case { scrutinee: ts, branches: tbs } => if pbs.len() != tbs.len() {
                None
            } else {
                match match_spec(*ps, *ts, s) {
                    Some(s1) => match_branches(pbs, tbs, 0, s1),
                    None => None,
                }
            },
            _ => None,
        },
        STerm::Hole { name: pn } => match t {
            STerm::Hole { name: tn } => if pn == tn {
                Some(s)
            } else {
                None
            },
            _ => None,
        },
        STerm::Let { name: pn, bound: pb, body: pbody } => match t {
            STerm::Let { name: tn, bound: tb, body: tbody } => match match_spec(*pb, *tb, s) {
                Some(s1) => match match_spec(*pbody, *tbody, s1.insert(pn, STerm::Var(tn))) {
                    Some(_) => Some(s1),
                    None => None,
                },
                None => None,
            },
            _ => None,
        },
    }
}

/// Match argument lists pairwise from position `i` on.
pub open spec fn match_list(pa: Seq<STerm>, ta: Seq<STerm>, i: int, s: Map<Seq<char>, STerm>) -> Option<Map<Seq<char>, STerm>>
    decreases pa, (if 0 <= i < pa.len() { pa.len() - i } else { 0 }) as nat,
{
    if 0 <= i < pa.len() {
        match match_spec(pa[i], ta[i], s) {
            Some(s1) => match_list(pa, ta, i + 1, s1),
            None => None,
        }
    } else {
        Some(s)
    }
}

/// Bind the first `n` pattern binders to the term's binder names.
pub open spec fn bind_binders(pbs: Seq<Seq<char>>, tbs: Seq<Seq<char>>, n: int, s: Map<Seq<char>, STerm>) -> Map<Seq<char>, STerm>
    decreases n,
{
    if n <= 0 {
        s
    } else {
        bind_binders(pbs, tbs, n - 1, s).insert(pbs[n - 1], STerm::Var(tbs[n - 1]))
    }
}

/// Match branch lists pairwise from position `i` on; the bindings are
/// unchanged by a branch.
pub open spec fn match_branches(pbs: Seq<SBranch>, tbs: Seq<SBranch>, i: int, s: Map<Seq<char>, STerm>) -> Option<Map<Seq<char>, STerm>>
    decreases pbs, (if 0 <= i < pbs.len() { pbs.len() - i } else { 0 }) as nat,
{
    if 0 <= i < pbs.len() {
        let pb = pbs[i];
        let tb = tbs[i];
        if pb.constructor != tb.constructor || pb.binders.len() != tb.binders.len() {
            None
        } else {
            match match_spec(pb.body, tb.body, bind_binders(pb.binders, tb.binders, pb.binders.len() as int, s)) {
                Some(_) => match_branches(pbs, tbs, i + 1, s),
                None => None,
            }
        }
    } else {
        Some(s)
    }
}

/// Match `pattern` against `term` from no bindings.
pub open spec fn match_pattern_spec(pattern: STerm, term: STerm) -> Option<Map<Seq<char>, STerm>> {
    match_spec(pattern, term, Map::empty())
}

fn match_inner(p: &Term, t: &Term, s: &mut Subst) -> (r: bool)
    ensures
        r == match_spec(p@, t@, old(s)@) is Some,
        r ==> final(s)@ == match_spec(p@, t@, old(s)@)->0,
    decreases p,
{
    match p {
        Term::Var(x) => {
            match s.get(x) {
                Some(existing) => {
                    return *existing == *t;
                },
                None => {},
            }
            let v = t.deep_copy();
            s.insert(x.clone(), v);
            true
        },
        Term::App { op: pop, args: pargs } => match t {
            Term::App { op: top, args: targs } => {
                proof {
                    lemma_app_view(*p);
                    lemma_app_view(*t);
                }
                if !(*pop == *top) || pargs.len() != targs.len() {
                    return false;
                }
                match_args(pargs, targs, s)
            },
            _ => {
                proof {
                    lemma_app_view(*p);
                }
                false
            },
        },
        Term::Case { scrutinee: ps, branches: pbs } => match t {
            Term::Case { scrutinee: ts, branches: tbs } => {
                proof {
                    lemma_case_view(*p);
                    lemma_case_view(*t);
                }
                if pbs.len() != tbs.len() {
                    return false;
                }
                if !match_inner(ps, ts, s) {
                    return false;
                }
                proof {
                    lemma_match_branches_keeps(view_branches(pbs@), view_branches(tbs@), 0, s@);
                }
                match_case_branches(pbs, tbs, s)
            },
            _ => {
                proof {
                    lemma_case_view(*p);
                }
                false
            },
        },
        Term::Hole { name: pn } => match t {
            Term::Hole { name: tn } => crate::term::opt_names_eq(pn, tn),
            _ => false,
        },
        Term::Let { name: pn, bound: pb, body: pbody } => match t {
            Term::Let { name: tn, bound: tb, body: tbody } => {
                if !match_inner(pb, tb, s) {
                    return false;
                }
                let saved = s.deep_copy();
                s.insert(pn.clone(), Term::Var(tn.clone()));
                let ok = match_inner(pbody, tbody, s);
                *s = saved;
                ok
            },
            _ => false,
        },
    }
}

fn match_args(pa: &Vec<Term>, ta: &Vec<Term>, s: &mut Subst) -> (r: bool)
    requires
        pa@.len() == ta@.len(),
    ensures
        r == match_list(view_terms(pa@), view_terms(ta@), 0, old(s)@) is Some,
        r ==> final(s)@ == match_list(view_terms(pa@), view_terms(ta@), 0, old(s)@)->0,
    decreases pa,
{
    let ghost a = view_terms(pa@);
    let ghost b = view_terms(ta@);
    let ghost s0 = s@;
    let mut i: usize = 0;
    while i < pa.len()
        invariant
            a == view_terms(pa@),
            b == view_terms(ta@),
            pa@.len() == ta@.len(),
            i <= pa@.len(),
            s0 == old(s)@,
            match_list(a, b, 0, s0) == match_list(a, b, i as int, s@),
        decreases pa@.len() - i,
    {
        proof {
            assert(decreases_to!(pa => pa@[i as int]));
            assert(a[i as int] == pa@[i as int]@);
            assert(b[i as int] == ta@[i as int]@);
        }
        let ghost si = s@;
        let ok = match_inner(&pa[i], &ta[i], s);
        if !ok {
            return false;
        }
        i = i + 1;
    }
    true
}

proof fn lemma_match_branches_keeps(pbs: Seq<SBranch>, tbs: Seq<SBranch>, i: int, s: Map<Seq<char>, STerm>)
    ensures
        match_branches(pbs, tbs, i, s) is Some ==> match_branches(pbs, tbs, i, s)->0 == s,
    decreases pbs, (if 0 <= i < pbs.len() { pbs.len() - i } else { 0 }) as nat,
{
    if 0 <= i < pbs.len() {
        lemma_match_branches_keeps(pbs, tbs, i + 1, s);
    }
}

fn match_case_branches(pbs: &Vec<CaseBranch>, tbs: &Vec<CaseBranch>, s: &mut Subst) -> (r: bool)
    requires
        pbs@.len() == tbs@.len(),
    ensures
        r == match_branches(view_branches(pbs@), view_branches(tbs@), 0, old(s)@) is Some,
        r ==> final(s)@ == old(s)@,
    decreases pbs,
{
    let ghost a = view_branches(pbs@);
    let ghost b = view_branches(tbs@);
    let ghost s0 = s@;
    proof {
        lemma_match_branches_keeps(a, b, 0, s0);
    }
    let mut i: usize = 0;
    while i < pbs.len()
        invariant
            a == view_branches(pbs@),
            b == view_branches(tbs@),
            pbs@.len() == tbs@.len(),
            i <= pbs@.len(),
            s0 == old(s)@,
            s@ == s0,
            match_branches(a, b, 0, s0) == match_branches(a, b, i as int, s0),
            match_branches(a, b, i as int, s0) is Some ==> match_branches(a, b, i as int, s0)->0 == s0,
        decreases pbs@.len() - i,
    {
        proof {
            assert(decreases_to!(pbs => pbs@[i as int]));
        }
        let pb = &pbs[i];
        let tb = &tbs[i];
        proof {
            assert(a[i as int] == pb@);
            assert(b[i as int] == tb@);
        }
        if !(pb.constructor == tb.constructor) || pb.binders.len() != tb.binders.len() {
            return false;
        }
        let saved = s.deep_copy();
        let ghost xs = a[i as int].binders;
        let ghost ys = b[i as int].binders;
        let mut k: usize = 0;
        while k < pb.binders.len()
            invariant
                xs == crate::term::names_view(pb.binders@),
                ys == crate::term::names_view(tb.binders@),
                pb.binders@.len() == tb.binders@.len(),
                k <= pb.binders@.len(),
                s@ == bind_binders(xs, ys, k as int, s0),
            decreases pb.binders@.len() - k,
        {
            s.insert(pb.binders[k].clone(), Term::Var(tb.binders[k].clone()));
            k = k + 1;
        }
        proof {
            assert(a[i as int].body == pb.body@);
        }
        let ok = match_inner(&pb.body, &tb.body, s);
        *s = saved;
        if !ok {
            return false;
        }
        i = i + 1;
    }
    true
}

/// Match `pattern` against `term`; `Some` of the bindings of the pattern
/// variables when it matches.
pub fn match_pattern(pattern: &Term, term: &Term) -> (r: Option<Subst>)
    ensures
        r is Some == match_pattern_spec(pattern@, term@) is Some,
        r is Some ==> r->0@ == match_pattern_spec(pattern@, term@)->0,
{
    let mut s = Subst::new();
    if match_inner(pattern, term, &mut s) {
        Some(s)
    } else {
        None
    }
}

// ---------------------------------------------------------------------------
// Laws
// ---------------------------------------------------------------------------

/// Replace the variables of a first-order term that `s` binds.
pub open spec fn instantiate(t: STerm, s: Map<Seq<char>, STerm>) -> STerm
    decreases t,
{
    match t {
        STerm::Var(x) => if s.contains_key(x) {
            s[x]
        } else {
            t
        },
        STerm::App { op, args } => STerm::App {
            op,
            args: Seq::new(
                args.len(),
                |i: int|
                    if 0 <= i < args.len() {
                        instantiate(args[i], s)
                    } else {
                        t
                    },
            ),
        },
        _ => t,
    }
}

/// Every variable of a first-order term is bound by `s`.
pub open spec fn bound_in(t: STerm, s: Map<Seq<char>, STerm>) -> bool
    decreases t, 0nat,
{
    match t {
        STerm::Var(x) => s.contains_key(x),
        STerm::App { args, .. } => bound_list(args, 0, s),
        _ => true,
    }
}

/// Every variable of the terms of `a` from position `i` on is bound.
pub open spec fn bound_list(a: Seq<STerm>, i: int, s: Map<Seq<char>, STerm>) -> bool
    decreases a, (if 0 <= i < a.len() { a.len() - i } else { 0 }) as nat,
{
    if 0 <= i < a.len() {
        bound_in(a[i], s) && bound_list(a, i + 1, s)
    } else {
        true
    }
}

/// `s2` extends `s1`.
pub open spec fn extends(s1: Map<Seq<char>, STerm>, s2: Map<Seq<char>, STerm>) -> bool {
    forall|k: Seq<char>| #[trigger] s1.contains_key(k) ==> s2.contains_key(k) && s2[k] == s1[k]
}

proof fn lemma_bound_list_at(a: Seq<STerm>, i: int, j: int, s: Map<Seq<char>, STerm>)
    requires
        bound_list(a, i, s),
        0 <= i <= j < a.len(),
    ensures
        bound_in(a[j], s),
    decreases j - i,
{
    if i < j {
        lemma_bound_list_at(a, i + 1, j, s);
    }
}

proof fn lemma_first_order_list_at(a: Seq<STerm>, i: int, j: int)
    requires
        first_order_list(a, i),
        0 <= i <= j < a.len(),
    ensures
        first_order(a[j]),
    decreases j - i,
{
    if i < j {
        lemma_first_order_list_at(a, i + 1, j);
    }
}

proof fn lemma_instantiate_extends(t: STerm, s1: Map<Seq<char>, STerm>, s2: Map<Seq<char>, STerm>)
    requires
        first_order(t),
        bound_in(t, s1),
        extends(s1, s2),
    ensures
        instantiate(t, s1) == instantiate(t, s2),
        bound_in(t, s2),
    decreases t, 0nat,
{
    if let STerm::App { op, args } = t {
        lemma_instantiate_extends_list(args, 0, s1, s2);
        assert forall|j: int| 0 <= j < args.len() implies instantiate(#[trigger] args[j], s1) == instantiate(args[j], s2) by {
            lemma_instantiate_extends_at(args, j, s1, s2);
        }
        assert(instantiate(t, s1)->args =~= instantiate(t, s2)->args);
    }
}

proof fn lemma_instantiate_extends_at(a: Seq<STerm>, j: int, s1: Map<Seq<char>, STerm>, s2: Map<Seq<char>, STerm>)
    requires
        first_order_list(a, 0),
        bound_list(a, 0, s1),
        extends(s1, s2),
        0 <= j < a.len(),
    ensures
        instantiate(a[j], s1) == instantiate(a[j], s2),
    decreases a, 1nat,
{
    lemma_first_order_list_at(a, 0, j);
    lemma_bound_list_at(a, 0, j, s1);
    lemma_instantiate_extends(a[j], s1, s2);
}

proof fn lemma_instantiate_extends_list(a: Seq<STerm>, i: int, s1: Map<Seq<char>, STerm>, s2: Map<Seq<char>, STerm>)
    requires
        first_order_list(a, i),
        bound_list(a, i, s1),
        extends(s1, s2),
    ensures
        bound_list(a, i, s2),
    decreases a, (if 0 <= i < a.len() { a.len() - i } else { 0 }) as nat,
{
    if 0 <= i < a.len() {
        lemma_instantiate_extends(a[i], s1, s2);
        lemma_instantiate_extends_list(a, i + 1, s1, s2);
    }
}

proof fn lemma_match_sound(p: STerm, t: STerm, s: Map<Seq<char>, STerm>)
    requires
        first_order(p),
        match_spec(p, t, s) is Some,
    ensures
        extends(s, match_spec(p, t, s)->0),
        bound_in(p, match_spec(p, t, s)->0),
        instantiate(p, match_spec(p, t, s)->0) == t,
    decreases p, 0nat,
{
    match p {
        STerm::App { op: pop, args: pargs } => {
            if let STerm::App { op: top, args: targs } = t {
                let s1 = match_spec(p, t, s)->0;
                lemma_match_sound_list(pargs, targs, 0, s);
                assert(instantiate(p, s1)->args =~= targs);
            }
        },
        _ => {},
    }
}

proof fn lemma_match_sound_list(pa: Seq<STerm>, ta: Seq<STerm>, i: int, s: Map<Seq<char>, STerm>)
    requires
        first_order_list(pa, i),
        pa.len() == ta.len(),
        0 <= i <= pa.len(),
        match_list(pa, ta, i, s) is Some,
    ensures
        extends(s, match_list(pa, ta, i, s)->0),
        bound_list(pa, i, match_list(pa, ta, i, s)->0),
        forall|j: int| i <= j < pa.len() ==> instantiate(#[trigger] pa[j], match_list(pa, ta, i, s)->0) == ta[j],
    decreases pa, (if 0 <= i < pa.len() { pa.len() - i } else { 0 }) as nat,
{
    if 0 <= i < pa.len() {
        let s1 = match_spec(pa[i], ta[i], s)->0;
        let s2 = match_list(pa, ta, i, s)->0;
        lemma_match_sound(pa[i], ta[i], s);
        lemma_match_sound_list(pa, ta, i + 1, s1);
        lemma_instantiate_extends(pa[i], s1, s2);
    }
}

proof fn lemma_subst_first_order(t: STerm, s: Map<Seq<char>, STerm>, fuel: nat)
    requires
        first_order(t),
        fuel >= size(t),
    ensures
        subst_fuel(t, s, fuel) == instantiate(t, s),
    decreases t, 0nat,
{
    if let STerm::App { op, args } = t {
        assert forall|j: int| 0 <= j < args.len() implies subst_fuel(#[trigger] args[j], s, (fuel - 1) as nat) == instantiate(args[j], s) by {
            lemma_first_order_list_at(args, 0, j);
            lemma_args_size(args, j);
            lemma_subst_first_order(args[j], s, (fuel - 1) as nat);
        }
        assert(subst_fuel(t, s, fuel)->args =~= instantiate(t, s)->args);
    }
}

/// A first-order pattern that matches a term, instantiated with the
/// bindings the match returns, gives back that term.
pub proof fn lemma_match_pattern_sound(pattern: STerm, term: STerm)
    requires
        first_order(pattern),
        match_pattern_spec(pattern, term) is Some,
    ensures
        subst(pattern, match_pattern_spec(pattern, term)->0) == term,
{
    lemma_match_sound(pattern, term, Map::empty());
    lemma_subst_first_order(pattern, match_pattern_spec(pattern, term)->0, size(pattern));
}

} // verus!
