//! Properties of rewrite systems: term positions, local confluence by
//! critical pairs, and termination by a lexicographic path ordering.
use vstd::prelude::*;
use vstd::string::*;
use core::cmp::Ordering;

use crate::eq::{DirectedEquation, SDirectedEquation, lemma_args_size, lemma_branches_size, rules_view, size, subst};
use crate::maps::{Subst, entries_map, lemma_entries_map_values};
use crate::normalize::{normalize, normalize_spec};
use crate::theory::Theory;
use crate::error::{GatError, SGatError};
use crate::term::{CaseBranch, SBranch, STerm, Term, lemma_app_view, lemma_case_view, view_branches, view_terms};

verus! {

// ---------------------------------------------------------------------------
// Positions
// ---------------------------------------------------------------------------

/// The child of a term model at index `i`: an argument of an application;
/// the scrutinee (0) or a branch body (1 onwards) of a case; the bound
/// term (0) or the body (1) of a `let`. Variables and holes have none.
pub open spec fn child_at(t: STerm, i: int) -> Option<STerm> {
    match t {
        STerm::App { args, .. } => if 0 <= i < args.len() {
            Some(args[i])
        } else {
            None
        },
        STerm::Case { scrutinee, branches } => if i == 0 {
            Some(*scrutinee)
        } else if 1 <= i <= branches.len() {
            Some(branches[i - 1].body)
        } else {
            None
        },
        STerm::Let { bound, body, .. } => if i == 0 {
            Some(*bound)
        } else if i == 1 {
            Some(*body)
        } else {
            None
        },
        _ => None,
    }
}

/// The subterm at a path of child indices, if the path exists.
pub open spec fn term_at(t: STerm, pos: Seq<usize>) -> Option<STerm>
    decreases pos.len(),
{
    if pos.len() == 0 {
        Some(t)
    } else {
        match child_at(t, pos[0] as int) {
            Some(c) => term_at(c, pos.drop_first()),
            None => None,
        }
    }
}

/// The term with the subterm at `pos` replaced by `r`; on an invalid path,
/// the remaining path at the node where it fails and the kind of that
/// node.
pub open spec fn replace_at(t: STerm, pos: Seq<usize>, r: STerm) -> Result<STerm, (Seq<usize>, Seq<char>)>
    decreases pos.len(),
{
    if pos.len() == 0 {
        Ok(r)
    } else {
        let head = pos[0] as int;
        let rest = pos.drop_first();
        match t {
            STerm::App { op, args } => if head < args.len() {
                match replace_at(args[head], rest, r) {
                    Ok(x) => Ok(STerm::App { op, args: args.update(head, x) }),
                    Err(e) => Err(e),
                }
            } else {
                Err((pos, "App (index out of range)"@))
            },
            STerm::Case { scrutinee, branches } => if head == 0 {
                match replace_at(*scrutinee, rest, r) {
                    Ok(x) => Ok(STerm::Case { scrutinee: Box::new(x), branches }),
                    Err(e) => Err(e),
                }
            } else if head - 1 < branches.len() {
                let b = branches[head - 1];
                match replace_at(b.body, rest, r) {
                    Ok(x) => Ok(
                        STerm::Case {
                            scrutinee,
                            branches: branches.update(head - 1, SBranch { constructor: b.constructor, binders: b.binders, body: x }),
                        },
                    ),
                    Err(e) => Err(e),
                }
            } else {
                Err((pos, "Case (branch index out of range)"@))
            },
            STerm::Let { name, bound, body } => if head == 0 {
                match replace_at(*bound, rest, r) {
                    Ok(x) => Ok(STerm::Let { name, bound: Box::new(x), body }),
                    Err(e) => Err(e),
                }
            } else if head == 1 {
                match replace_at(*body, rest, r) {
                    Ok(x) => Ok(STerm::Let { name, bound, body: Box::new(x) }),
                    Err(e) => Err(e),
                }
            } else {
                Err((pos, "Let (only indices 0 and 1 are valid)"@))
            },
            STerm::Var(_) => Err((pos, "Var"@)),
            STerm::Hole { .. } => Err((pos, "Hole"@)),
        }
    }
}

/// The subterm at a path, if the path exists.
pub fn term_at_position(term: &Term, pos: &[usize]) -> (r: Option<Term>)
    ensures
        match r {
            Some(x) => term_at(term@, pos@) == Some(x@),
            None => term_at(term@, pos@) is None,
        },
    decreases pos@.len(),
{
    if pos.len() == 0 {
        return Some(term.deep_copy());
    }
    let i = pos[0];
    let rest = slice_rest(pos);
    match term {
        Term::App { args, .. } => {
            proof {
                lemma_app_view(*term);
            }
            if i < args.len() {
                proof {
                    assert(view_terms(args@)[i as int] == args@[i as int]@);
                }
                term_at_position(&args[i], rest)
            } else {
                None
            }
        },
        Term::Case { scrutinee, branches } => {
            proof {
                lemma_case_view(*term);
            }
            if i == 0 {
                term_at_position(scrutinee, rest)
            } else if i - 1 < branches.len() {
                proof {
                    assert(view_branches(branches@)[i - 1] == branches@[i - 1]@);
                }
                term_at_position(&branches[i - 1].body, rest)
            } else {
                None
            }
        },
        Term::Let { bound, body, .. } => {
            if i == 0 {
                term_at_position(bound, rest)
            } else if i == 1 {
                term_at_position(body, rest)
            } else {
                None
            }
        },
        _ => None,
    }
}

/// The slice without its first element.
fn slice_rest(pos: &[usize]) -> (r: &[usize])
    requires
        pos@.len() > 0,
    ensures
        r@ == pos@.drop_first(),
{
    let n = pos.len();
    let r = &pos[1..n];
    assert(r@ =~= pos@.drop_first());
    r
}

fn slice_to_vec_usize(s: &[usize]) -> (r: Vec<usize>)
    ensures
        r@ == s@,
{
    let mut v: Vec<usize> = Vec::new();
    let mut i: usize = 0;
    while i < s.len()
        invariant
            i <= s@.len(),
            v@ == s@.take(i as int),
        decreases s@.len() - i,
    {
        v.push(s[i]);
        proof {
            assert(v@ =~= s@.take(i + 1));
        }
        i = i + 1;
    }
    assert(v@ =~= s@);
    v
}

fn invalid_position(pos: &[usize], kind: &str) -> (e: GatError)
    ensures
        e@ == (SGatError::InvalidRewritePosition { path: pos@, node_kind: kind@ }),
{
    GatError::InvalidRewritePosition { path: slice_to_vec_usize(pos), node_kind: kind.to_owned() }
}

/// Replace the subterm at `pos` with `replacement`; an invalid path is an
/// `InvalidRewritePosition` error naming the remaining path and the kind
/// of node where it fails.
pub fn replace_at_position(term: &Term, pos: &[usize], replacement: Term) -> (r: Result<Term, GatError>)
    ensures
        match r {
            Ok(x) => replace_at(term@, pos@, replacement@) == Ok::<STerm, (Seq<usize>, Seq<char>)>(x@),
            Err(e) => replace_at(term@, pos@, replacement@) matches Err(p) && e@ == (SGatError::InvalidRewritePosition {
                path: p.0,
                node_kind: p.1,
            }),
        },
    decreases pos@.len(),
{
    if pos.len() == 0 {
        return Ok(replacement);
    }
    let head = pos[0];
    let rest = slice_rest(pos);
    match term {
        Term::App { op, args } => {
            proof {
                lemma_app_view(*term);
            }
            if head >= args.len() {
                return Err(invalid_position(pos, "App (index out of range)"));
            }
            proof {
                assert(view_terms(args@)[head as int] == args@[head as int]@);
            }
            let replaced = replace_at_position(&args[head], rest, replacement)?;
            let mut new_args = crate::term::copy_terms(args);
            let ghost old_args = view_terms(new_args@);
            new_args.set(head, replaced);
            let r = Term::App { op: op.clone(), args: new_args };
            proof {
                lemma_app_view(r);
                assert(view_terms(new_args@) =~= old_args.update(head as int, replaced@));
            }
            Ok(r)
        },
        Term::Case { scrutinee, branches } => {
            proof {
                lemma_case_view(*term);
            }
            if head == 0 {
                let new_s = replace_at_position(scrutinee, rest, replacement)?;
                let r = Term::Case { scrutinee: Box::new(new_s), branches: crate::term::copy_branches(branches) };
                proof {
                    lemma_case_view(r);
                }
                Ok(r)
            } else {
                let idx = head - 1;
                if idx >= branches.len() {
                    return Err(invalid_position(pos, "Case (branch index out of range)"));
                }
                let b = &branches[idx];
                proof {
                    assert(view_branches(branches@)[idx as int] == b@);
                }
                let new_body = replace_at_position(&b.body, rest, replacement)?;
                let mut bs = crate::term::copy_branches(branches);
                let ghost old_bs = view_branches(bs@);
                let nb = CaseBranch { constructor: b.constructor.clone(), binders: crate::term::clone_names(&b.binders), body: new_body };
                bs.set(idx, nb);
                let r = Term::Case { scrutinee: Box::new(scrutinee.deep_copy()), branches: bs };
                proof {
                    lemma_case_view(r);
                    assert(view_branches(bs@) =~= old_bs.update(idx as int, nb@));
                }
                Ok(r)
            }
        },
        Term::Let { name, bound, body } => {
            if head == 0 {
                let nb = replace_at_position(bound, rest, replacement)?;
                Ok(Term::Let { name: name.clone(), bound: Box::new(nb), body: Box::new(body.deep_copy()) })
            } else if head == 1 {
                let nb = replace_at_position(body, rest, replacement)?;
                Ok(Term::Let { name: name.clone(), bound: Box::new(bound.deep_copy()), body: Box::new(nb) })
            } else {
                Err(invalid_position(pos, "Let (only indices 0 and 1 are valid)"))
            }
        },
        Term::Var(_) => Err(invalid_position(pos, "Var")),
        Term::Hole { .. } => Err(invalid_position(pos, "Hole")),
    }
}

/// Replacing the subterm at a path succeeds exactly when the path exists,
/// and reading the path back gives the replacement.
pub proof fn lemma_replace_then_read(t: STerm, pos: Seq<usize>, r: STerm)
    ensures
        (replace_at(t, pos, r) is Ok) == (term_at(t, pos) is Some),
        replace_at(t, pos, r) matches Ok(x) ==> term_at(x, pos) == Some(r),
    decreases pos.len(),
{
    if pos.len() > 0 {
        let head = pos[0] as int;
        let rest = pos.drop_first();
        match t {
            STerm::App { op, args } => {
                if head < args.len() {
                    lemma_replace_then_read(args[head], rest, r);
                }
            },
            STerm::Case { scrutinee, branches } => {
                if head == 0 {
                    lemma_replace_then_read(*scrutinee, rest, r);
                } else if head - 1 < branches.len() {
                    lemma_replace_then_read(branches[head - 1].body, rest, r);
                }
            },
            STerm::Let { name, bound, body } => {
                if head == 0 {
                    lemma_replace_then_read(*bound, rest, r);
                } else if head == 1 {
                    lemma_replace_then_read(*body, rest, r);
                }
            },
            _ => {},
        }
    }
}

// ---------------------------------------------------------------------------
// Variables, holes and positions of a term
// ---------------------------------------------------------------------------

/// Append the variables of `t` (in order of first occurrence, each once)
/// to `acc`; `let` and branch binders are not collected as such.
pub open spec fn vars_acc(t: STerm, acc: Seq<Seq<char>>) -> Seq<Seq<char>>
    decreases t, 0nat,
{
    match t {
        STerm::Var(n) => if acc.contains(n) {
            acc
        } else {
            acc.push(n)
        },
        STerm::Hole { .. } => acc,
        STerm::Let { bound, body, .. } => vars_acc(*body, vars_acc(*bound, acc)),
        STerm::App { args, .. } => vars_list(args, 0, acc),
        STerm::Case { scrutinee, branches } => vars_branches(branches, 0, vars_acc(*scrutinee, acc)),
    }
}

/// [`vars_acc`] over the terms of a list from position `i` on.
pub open spec fn vars_list(a: Seq<STerm>, i: int, acc: Seq<Seq<char>>) -> Seq<Seq<char>>
    decreases a, (if 0 <= i < a.len() { a.len() - i } else { 0 }) as nat,
{
    if 0 <= i < a.len() {
        vars_list(a, i + 1, vars_acc(a[i], acc))
    } else {
        acc
    }
}

/// [`vars_acc`] over the branch bodies of a list from position `i` on.
pub open spec fn vars_branches(bs: Seq<SBranch>, i: int, acc: Seq<Seq<char>>) -> Seq<Seq<char>>
    decreases bs, (if 0 <= i < bs.len() { bs.len() - i } else { 0 }) as nat,
{
    if 0 <= i < bs.len() {
        vars_branches(bs, i + 1, vars_acc(bs[i].body, acc))
    } else {
        acc
    }
}


fn collect_vars_walk(t: &Term, out: &mut Vec<String>)
    ensures
        crate::term::names_view(final(out)@) == vars_acc(t@, crate::term::names_view(old(out)@)),
    decreases t,
{
    match t {
        Term::Var(n) => {
            if !crate::term::names_contain(out, n) {
                let ghost before = out@;
                out.push(n.clone());
                proof {
                    assert(crate::term::names_view(out@) =~= crate::term::names_view(before).push(n@));
                }
            }
        },
        Term::Hole { .. } => {},
        Term::Let { bound, body, .. } => {
            collect_vars_walk(bound, out);
            collect_vars_walk(body, out);
        },
        Term::App { args, .. } => {
            proof {
                lemma_app_view(*t);
            }
            let ghost a = view_terms(args@);
            proof {
                assert forall|j: int| 0 <= j < args@.len() implies decreases_to!(*t => args@[j]) by {
                    assert(decreases_to!(*t => *args));
                }
            }
            let ghost start = crate::term::names_view(out@);
            let mut i: usize = 0;
            while i < args.len()
                invariant
                    a == view_terms(args@),
                    t@ is App && t@->args == a,
                    forall|j: int| 0 <= j < args@.len() ==> decreases_to!(*t => args@[j]),
                    i <= args@.len(),
                    vars_list(a, 0, start) == vars_list(a, i as int, crate::term::names_view(out@)),
                decreases args@.len() - i,
            {
                proof {
                    assert(a[i as int] == args@[i as int]@);
                }
                collect_vars_walk(&args[i], out);
                i = i + 1;
            }
        },
        Term::Case { scrutinee, branches } => {
            proof {
                lemma_case_view(*t);
            }
            collect_vars_walk(scrutinee, out);
            let ghost bv = view_branches(branches@);
            proof {
                assert forall|j: int| 0 <= j < branches@.len() implies decreases_to!(*t => branches@[j]) by {
                    assert(decreases_to!(*t => *branches));
                }
            }
            let ghost start = crate::term::names_view(out@);
            let mut i: usize = 0;
            while i < branches.len()
                invariant
                    bv == view_branches(branches@),
                    t@ is Case && t@->branches == bv,
                    forall|j: int| 0 <= j < branches@.len() ==> decreases_to!(*t => branches@[j]),
                    i <= branches@.len(),
                    vars_branches(bv, 0, start) == vars_branches(bv, i as int, crate::term::names_view(out@)),
                decreases branches@.len() - i,
            {
                proof {
                    assert(bv[i as int].body == branches@[i as int].body@);
                }
                collect_vars_walk(&branches[i].body, out);
                i = i + 1;
            }
        },
    }
}

/// The variables of a term, in order of first occurrence, each once.
pub fn collect_vars(t: &Term) -> (r: Vec<String>)
    ensures
        crate::term::names_view(r@) == vars_acc(t@, Seq::empty()),
{
    let mut out: Vec<String> = Vec::new();
    proof {
        assert(crate::term::names_view(out@) =~= Seq::<Seq<char>>::empty());
    }
    collect_vars_walk(t, &mut out);
    out
}

/// Whether `x` occurs in `t`: as a variable, not counting the body of a
/// `let` that binds `x` (case branch binders are not considered).
pub open spec fn occurs_spec(x: Seq<char>, t: STerm) -> bool
    decreases t, 0nat,
{
    match t {
        STerm::Var(v) => v == x,
        STerm::Hole { .. } => false,
        STerm::Let { name, bound, body } => occurs_spec(x, *bound) || (name != x && occurs_spec(x, *body)),
        STerm::App { args, .. } => occurs_list(x, args, 0),
        STerm::Case { scrutinee, branches } => occurs_spec(x, *scrutinee) || occurs_branches(x, branches, 0),
    }
}

/// [`occurs_spec`] in some term of a list from position `i` on.
pub open spec fn occurs_list(x: Seq<char>, a: Seq<STerm>, i: int) -> bool
    decreases a, (if 0 <= i < a.len() { a.len() - i } else { 0 }) as nat,
{
    if 0 <= i < a.len() {
        occurs_spec(x, a[i]) || occurs_list(x, a, i + 1)
    } else {
        false
    }
}

/// [`occurs_spec`] in some branch body of a list from position `i` on.
pub open spec fn occurs_branches(x: Seq<char>, bs: Seq<SBranch>, i: int) -> bool
    decreases bs, (if 0 <= i < bs.len() { bs.len() - i } else { 0 }) as nat,
{
    if 0 <= i < bs.len() {
        occurs_spec(x, bs[i].body) || occurs_branches(x, bs, i + 1)
    } else {
        false
    }
}

/// Whether the variable `x` occurs in `t` (see [`occurs_spec`]).
pub fn occurs(x: &String, t: &Term) -> (r: bool)
    ensures
        r == occurs_spec(x@, t@),
    decreases t,
{
    match t {
        Term::Var(v) => *v == *x,
        Term::Hole { .. } => false,
        Term::Let { name, bound, body } => occurs(x, bound) || (!(*name == *x) && occurs(x, body)),
        Term::App { args, .. } => {
            proof {
                lemma_app_view(*t);
            }
            let ghost a = view_terms(args@);
            proof {
                assert forall|j: int| 0 <= j < args@.len() implies decreases_to!(*t => args@[j]) by {
                    assert(decreases_to!(*t => *args));
                }
            }
            let mut i: usize = 0;
            while i < args.len()
                invariant
                    a == view_terms(args@),
                    t@ is App && t@->args == a,
                    forall|j: int| 0 <= j < args@.len() ==> decreases_to!(*t => args@[j]),
                    i <= args@.len(),
                    occurs_list(x@, a, 0) == occurs_list(x@, a, i as int),
                decreases args@.len() - i,
            {
                proof {
                    assert(a[i as int] == args@[i as int]@);
                }
                if occurs(x, &args[i]) {
                    return true;
                }
                i = i + 1;
            }
            false
        },
        Term::Case { scrutinee, branches } => {
            proof {
                lemma_case_view(*t);
            }
            if occurs(x, scrutinee) {
                return true;
            }
            let ghost bv = view_branches(branches@);
            proof {
                assert forall|j: int| 0 <= j < branches@.len() implies decreases_to!(*t => branches@[j]) by {
                    assert(decreases_to!(*t => *branches));
                }
            }
            let mut i: usize = 0;
            while i < branches.len()
                invariant
                    bv == view_branches(branches@),
                    t@ is Case && t@->branches == bv,
                    forall|j: int| 0 <= j < branches@.len() ==> decreases_to!(*t => branches@[j]),
                    i <= branches@.len(),
                    occurs_branches(x@, bv, 0) == occurs_branches(x@, bv, i as int),
                decreases branches@.len() - i,
            {
                proof {
                    assert(bv[i as int].body == branches@[i as int].body@);
                }
                if occurs(x, &branches[i].body) {
                    return true;
                }
                i = i + 1;
            }
            false
        },
    }
}

/// Whether a hole occurs anywhere in `t`.
pub open spec fn has_hole(t: STerm) -> bool
    decreases t, 0nat,
{
    match t {
        STerm::Hole { .. } => true,
        STerm::Var(_) => false,
        STerm::App { args, .. } => hole_list(args, 0),
        STerm::Case { scrutinee, branches } => has_hole(*scrutinee) || hole_branches(branches, 0),
        STerm::Let { bound, body, .. } => has_hole(*bound) || has_hole(*body),
    }
}

/// [`has_hole`] in some term of a list from position `i` on.
pub open spec fn hole_list(a: Seq<STerm>, i: int) -> bool
    decreases a, (if 0 <= i < a.len() { a.len() - i } else { 0 }) as nat,
{
    if 0 <= i < a.len() {
        has_hole(a[i]) || hole_list(a, i + 1)
    } else {
        false
    }
}

/// [`has_hole`] in some branch body of a list from position `i` on.
pub open spec fn hole_branches(bs: Seq<SBranch>, i: int) -> bool
    decreases bs, (if 0 <= i < bs.len() { bs.len() - i } else { 0 }) as nat,
{
    if 0 <= i < bs.len() {
        has_hole(bs[i].body) || hole_branches(bs, i + 1)
    } else {
        false
    }
}

fn contains_hole(t: &Term) -> (r: bool)
    ensures
        r == has_hole(t@),
    decreases t,
{
    match t {
        Term::Hole { .. } => true,
        Term::Var(_) => false,
        Term::Let { bound, body, .. } => contains_hole(bound) || contains_hole(body),
        Term::App { args, .. } => {
            proof {
                lemma_app_view(*t);
            }
            let ghost a = view_terms(args@);
            proof {
                assert forall|j: int| 0 <= j < args@.len() implies decreases_to!(*t => args@[j]) by {
                    assert(decreases_to!(*t => *args));
                }
            }
            let mut i: usize = 0;
            while i < args.len()
                invariant
                    a == view_terms(args@),
                    t@ is App && t@->args == a,
                    forall|j: int| 0 <= j < args@.len() ==> decreases_to!(*t => args@[j]),
                    i <= args@.len(),
                    hole_list(a, 0) == hole_list(a, i as int),
                decreases args@.len() - i,
            {
                proof {
                    assert(a[i as int] == args@[i as int]@);
                }
                if contains_hole(&args[i]) {
                    return true;
                }
                i = i + 1;
            }
            false
        },
        Term::Case { scrutinee, branches } => {
            proof {
                lemma_case_view(*t);
            }
            if contains_hole(scrutinee) {
                return true;
            }
            let ghost bv = view_branches(branches@);
            proof {
                assert forall|j: int| 0 <= j < branches@.len() implies decreases_to!(*t => branches@[j]) by {
                    assert(decreases_to!(*t => *branches));
                }
            }
            let mut i: usize = 0;
            while i < branches.len()
                invariant
                    bv == view_branches(branches@),
                    t@ is Case && t@->branches == bv,
                    forall|j: int| 0 <= j < branches@.len() ==> decreases_to!(*t => branches@[j]),
                    i <= branches@.len(),
                    hole_branches(bv, 0) == hole_branches(bv, i as int),
                decreases branches@.len() - i,
            {
                proof {
                    assert(bv[i as int].body == branches@[i as int].body@);
                }
                if contains_hole(&branches[i].body) {
                    return true;
                }
                i = i + 1;
            }
            false
        },
    }
}

/// The paths (from `prefix`) to the application nodes of `t`, in
/// preorder; only application arguments are descended into.
pub open spec fn app_positions(t: STerm, prefix: Seq<usize>) -> Seq<Seq<usize>>
    decreases t, 0nat,
{
    match t {
        STerm::App { args, .. } => seq![prefix] + app_positions_list(args, 0, prefix),
        _ => Seq::empty(),
    }
}

/// [`app_positions`] for the arguments from position `i` on.
pub open spec fn app_positions_list(a: Seq<STerm>, i: int, prefix: Seq<usize>) -> Seq<Seq<usize>>
    decreases a, (if 0 <= i < a.len() { a.len() - i } else { 0 }) as nat,
{
    if 0 <= i < a.len() {
        app_positions(a[i], prefix.push(i as usize)) + app_positions_list(a, i + 1, prefix)
    } else {
        Seq::empty()
    }
}

fn app_positions_walk(t: &Term, path: &mut Vec<usize>, out: &mut Vec<Vec<usize>>)
    ensures
        final(path)@ == old(path)@,
        Seq::new(final(out)@.len(), |k: int| final(out)@[k]@) == Seq::new(old(out)@.len(), |k: int| old(out)@[k]@) + app_positions(t@, old(path)@),
    decreases t,
{
    let ghost o0 = Seq::new(out@.len(), |k: int| out@[k]@);
    match t {
        Term::App { args, .. } => {
            proof {
                lemma_app_view(*t);
            }
            out.push(path.clone());
            let ghost a = view_terms(args@);
            proof {
                assert forall|j: int| 0 <= j < args@.len() implies decreases_to!(*t => args@[j]) by {
                    assert(decreases_to!(*t => *args));
                }
            }
            let ghost p0 = path@;
            let ghost o1 = Seq::new(out@.len(), |k: int| out@[k]@);
            proof {
                assert(o1 =~= o0 + seq![p0]);
            }
            let mut i: usize = 0;
            while i < args.len()
                invariant
                    a == view_terms(args@),
                    t@ is App && t@->args == a,
                    forall|j: int| 0 <= j < args@.len() ==> decreases_to!(*t => args@[j]),
                    i <= args@.len(),
                    path@ == p0,
                    o0 + app_positions(t@, p0) == Seq::new(out@.len(), |k: int| out@[k]@) + app_positions_list(a, i as int, p0),
                decreases args@.len() - i,
            {
                proof {
                    assert(a[i as int] == args@[i as int]@);
                }
                let ghost ob = Seq::new(out@.len(), |k: int| out@[k]@);
                path.push(i);
                app_positions_walk(&args[i], path, out);
                path.pop();
                proof {
                    assert(path@ =~= p0);
                    let oa = Seq::new(out@.len(), |k: int| out@[k]@);
                    assert(oa == ob + app_positions(a[i as int], p0.push(i)));
                    assert(ob + app_positions_list(a, i as int, p0) =~= oa + app_positions_list(a, i + 1, p0));
                }
                i = i + 1;
            }
            proof {
                let oe = Seq::new(out@.len(), |k: int| out@[k]@);
                assert(oe + app_positions_list(a, i as int, p0) =~= oe);
            }
        },
        _ => {
            proof {
                assert(Seq::new(out@.len(), |k: int| out@[k]@) =~= o0 + app_positions(t@, path@));
            }
        },
    }
}

/// The paths to the application nodes of a term, in preorder.
pub fn non_variable_positions(t: &Term) -> (r: Vec<Vec<usize>>)
    ensures
        Seq::new(r@.len(), |k: int| r@[k]@) == app_positions(t@, Seq::empty()),
{
    let mut out: Vec<Vec<usize>> = Vec::new();
    let mut path: Vec<usize> = Vec::new();
    app_positions_walk(t, &mut path, &mut out);
    proof {
        assert(Seq::new(0, |k: int| out@[k]@) =~= Seq::<Seq<usize>>::empty());
        assert(path@ =~= Seq::<usize>::empty());
    }
    out
}

// ---------------------------------------------------------------------------
// Lexicographic path ordering
// ---------------------------------------------------------------------------

/// A precedence on operation names: later names rank higher.
#[derive(Debug)]
pub struct OpPrecedence {
    /// Operation names in ascending precedence.
    pub order: Vec<String>,
}

/// The comparison of two names by their first positions in `order`, when
/// both occur.
pub open spec fn prec_compare(order: Seq<Seq<char>>, a: Seq<char>, b: Seq<char>) -> Option<Ordering> {
    match crate::theory::first_named(order, a) {
        Some(i) => match crate::theory::first_named(order, b) {
            Some(j) => Some(
                if i < j {
                    Ordering::Less
                } else if i == j {
                    Ordering::Equal
                } else {
                    Ordering::Greater
                },
            ),
            None => None,
        },
        None => None,
    }
}

impl OpPrecedence {
    /// A precedence listing names in ascending order.
    pub fn new(order: &[&str]) -> (r: OpPrecedence)
        ensures
            crate::term::names_view(r.order@) == Seq::new(order@.len(), |i: int| order@[i]@),
    {
        let mut v: Vec<String> = Vec::new();
        let mut i: usize = 0;
        while i < order.len()
            invariant
                i <= order@.len(),
                v@.len() == i,
                forall|j: int| 0 <= j < i ==> #[trigger] v@[j]@ == order@[j]@,
            decreases order@.len() - i,
        {
            v.push(order[i].to_owned());
            i = i + 1;
        }
        assert(crate::term::names_view(v@) =~= Seq::new(order@.len(), |i: int| order@[i]@));
        OpPrecedence { order: v }
    }

    /// Compare two names by precedence; `None` when either is absent.
    pub fn compare(&self, a: &str, b: &str) -> (r: Option<Ordering>)
        ensures
            r == prec_compare(crate::term::names_view(self.order@), a@, b@),
    {
        let ghost names = crate::term::names_view(self.order@);
        let ia = match position_of(&self.order, a) {
            Some(i) => i,
            None => {
                return None;
            },
        };
        let ib = match position_of(&self.order, b) {
            Some(i) => i,
            None => {
                return None;
            },
        };
        if ia < ib {
            Some(Ordering::Less)
        } else if ia == ib {
            Some(Ordering::Equal)
        } else {
            Some(Ordering::Greater)
        }
    }
}

fn position_of(v: &Vec<String>, n: &str) -> (r: Option<usize>)
    ensures
        match r {
            Some(i) => crate::theory::first_named(crate::term::names_view(v@), n@) == Some(i as int),
            None => crate::theory::first_named(crate::term::names_view(v@), n@) is None,
        },
{
    let ghost names = crate::term::names_view(v@);
    let mut i: usize = 0;
    while i < v.len()
        invariant
            names == crate::term::names_view(v@),
            i <= v@.len(),
            forall|j: int| 0 <= j < i ==> names[j] != n@,
        decreases v@.len() - i,
    {
        if crate::maps::str_eq(v[i].as_str(), n) {
            proof {
                crate::theory::lemma_first_named(names, n@);
                let c = crate::theory::first_named(names, n@)->0;
                assert(names[i as int] == n@);
                if c < i {
                    assert(names[c] != n@);
                }
                let w = choose|w: int| 0 <= w < names.len() && names[w] == n@ && forall|j: int| 0 <= j < w ==> names[j] != n@;
                if w > i {
                    assert(names[i as int] != n@);
                }
            }
            return Some(i);
        }
        i = i + 1;
    }
    proof {
        crate::theory::lemma_first_named(names, n@);
        if names.contains(n@) {
            let j = choose|j: int| 0 <= j < names.len() && names[j] == n@;
            assert(names[j] != n@);
        }
    }
    None
}

/// 2 when `f` ranks above `g`, 1 when they rank equal, 0 otherwise
/// (lower, or either unranked).
pub open spec fn prec_rank(order: Seq<Seq<char>>, f: Seq<char>, g: Seq<char>) -> int {
    match prec_compare(order, f, g) {
        Some(Ordering::Greater) => 2,
        Some(Ordering::Equal) => 1,
        _ => 0,
    }
}

fn prec_rank_exec(prec: &OpPrecedence, f: &str, g: &str) -> (r: u8)
    ensures
        r == prec_rank(crate::term::names_view(prec.order@), f@, g@),
{
    match prec.compare(f, g) {
        Some(Ordering::Greater) => 2,
        Some(Ordering::Equal) => 1,
        _ => 0,
    }
}

/// The structural subterms: the arguments of an application; the
/// scrutinee and branch bodies of a case; the bound term and body of a
/// `let`.
pub open spec fn subterms(t: STerm) -> Seq<STerm> {
    match t {
        STerm::App { args, .. } => args,
        STerm::Case { scrutinee, branches } => seq![*scrutinee] + Seq::new(branches.len(), |i: int| branches[i].body),
        STerm::Let { bound, body, .. } => seq![*bound, *body],
        _ => Seq::empty(),
    }
}

/// The head compared by precedence: the operation of an application, and
/// the pseudo-operations `__case__` and `__let__`.
pub open spec fn head_name(t: STerm) -> Option<Seq<char>> {
    match t {
        STerm::App { op, .. } => Some(op),
        STerm::Case { .. } => Some("__case__"@),
        STerm::Let { .. } => Some("__let__"@),
        _ => None,
    }
}

/// Each structural subterm is smaller than the term.
pub proof fn lemma_subterms_smaller(t: STerm, i: int)
    requires
        0 <= i < subterms(t).len(),
    ensures
        size(subterms(t)[i]) < size(t),
{
    match t {
        STerm::App { args, .. } => {
            lemma_args_size(args, i);
        },
        STerm::Case { scrutinee, branches } => {
            if i > 0 {
                lemma_branches_size(branches, i - 1);
            }
        },
        _ => {},
    }
}

/// Whether `x` occurs in some term of `ts` from position `i` on.
pub open spec fn occurs_in_some(x: Seq<char>, ts: Seq<STerm>, i: int) -> bool
    decreases (if 0 <= i < ts.len() { ts.len() - i } else { 0 }) as nat,
{
    if 0 <= i < ts.len() {
        occurs_spec(x, ts[i]) || occurs_in_some(x, ts, i + 1)
    } else {
        false
    }
}

/// The lexicographic path ordering `s >lpo t` under the precedence
/// `order`: a variable or hole is greater than nothing; otherwise `s` is
/// greater when some subterm of `s` equals or is greater than `t`; or `t`
/// is a variable occurring in a subterm of `s`; or the heads compare
/// greater and `s` is greater than every subterm of `t`; or the heads
/// are equal, `s` is greater than every subterm of `t`, and the subterms
/// of `s` are lexicographically greater than those of `t`.
pub open spec fn lpo(s: STerm, t: STerm, order: Seq<Seq<char>>) -> bool
    decreases size(s) + size(t), 2nat, 0nat,
{
    if s is Var || s is Hole {
        false
    } else if lpo_some_ge(s, t, order, 0) {
        true
    } else {
        match t {
            STerm::Var(x) => occurs_in_some(x, subterms(s), 0),
            STerm::Hole { .. } => false,
            _ => match head_name(s) {
                Some(f) => match head_name(t) {
                    Some(g) => if prec_rank(order, f, g) == 2 {
                        lpo_all(s, t, order, 0)
                    } else if prec_rank(order, f, g) == 1 {
                        lpo_all(s, t, order, 0) && lpo_lex(s, t, order, 0)
                    } else {
                        false
                    },
                    None => false,
                },
                None => false,
            },
        }
    }
}

/// Some subterm of `s` from position `i` on equals `t` or is greater.
pub open spec fn lpo_some_ge(s: STerm, t: STerm, order: Seq<Seq<char>>, i: int) -> bool
    decreases size(s) + size(t), 1nat, (if 0 <= i < subterms(s).len() { subterms(s).len() - i } else { 0 }) as nat,
{
    let ss = subterms(s);
    if 0 <= i < ss.len() {
        proof {
            lemma_subterms_smaller(s, i);
        }
        ss[i] == t || lpo(ss[i], t, order) || lpo_some_ge(s, t, order, i + 1)
    } else {
        false
    }
}

/// `s` is greater than every subterm of `t` from position `j` on.
pub open spec fn lpo_all(s: STerm, t: STerm, order: Seq<Seq<char>>, j: int) -> bool
    decreases size(s) + size(t), 1nat, (if 0 <= j < subterms(t).len() { subterms(t).len() - j } else { 0 }) as nat,
{
    let ts = subterms(t);
    if 0 <= j < ts.len() {
        proof {
            lemma_subterms_smaller(t, j);
        }
        lpo(s, ts[j], order) && lpo_all(s, t, order, j + 1)
    } else {
        true
    }
}

/// The subterms of `s` are lexicographically greater than those of `t`
/// from position `k` on: at the first differing position the one of `s`
/// is greater; with no difference, `s` has more.
pub open spec fn lpo_lex(s: STerm, t: STerm, order: Seq<Seq<char>>, k: int) -> bool
    decreases size(s) + size(t), 1nat, (if 0 <= k < subterms(s).len() { subterms(s).len() - k } else { 0 }) as nat,
{
    let a = subterms(s);
    let b = subterms(t);
    if 0 <= k < a.len() && k < b.len() {
        proof {
            lemma_subterms_smaller(s, k);
            lemma_subterms_smaller(t, k);
        }
        if a[k] == b[k] {
            lpo_lex(s, t, order, k + 1)
        } else {
            lpo(a[k], b[k], order)
        }
    } else {
        a.len() > b.len()
    }
}

/// A subterm at `j` (from `i` on) that equals or exceeds `x` makes
/// [`lpo_some_ge`] hold.
proof fn lemma_some_ge_intro(s: STerm, x: STerm, order: Seq<Seq<char>>, i: int, j: int)
    requires
        0 <= i <= j < subterms(s).len(),
        subterms(s)[j] == x || lpo(subterms(s)[j], x, order),
    ensures
        lpo_some_ge(s, x, order, i),
    decreases j - i,
{
    if i < j {
        lemma_some_ge_intro(s, x, order, i + 1, j);
    }
}

/// The position of a subterm that makes [`lpo_some_ge`] hold.
proof fn lemma_some_ge_elim(s: STerm, x: STerm, order: Seq<Seq<char>>, i: int) -> (j: int)
    requires
        0 <= i,
        lpo_some_ge(s, x, order, i),
    ensures
        i <= j < subterms(s).len(),
        subterms(s)[j] == x || lpo(subterms(s)[j], x, order),
    decreases subterms(s).len() - i,
{
    let ss = subterms(s);
    if ss[i] == x || lpo(ss[i], x, order) {
        i
    } else {
        lemma_some_ge_elim(s, x, order, i + 1)
    }
}

/// [`lpo_all`] from `j` on gives `s` greater than each later subterm.
proof fn lemma_all_elim(s: STerm, t: STerm, order: Seq<Seq<char>>, j: int, i: int)
    requires
        0 <= j <= i < subterms(t).len(),
        lpo_all(s, t, order, j),
    ensures
        lpo(s, subterms(t)[i], order),
    decreases i - j,
{
    if j < i {
        lemma_all_elim(s, t, order, j + 1, i);
    }
}

/// A term's subterms are never lexicographically greater than themselves.
proof fn lemma_lex_self(t: STerm, order: Seq<Seq<char>>, k: int)
    requires
        0 <= k,
    ensures
        !lpo_lex(t, t, order, k),
    decreases (if k < subterms(t).len() { subterms(t).len() - k } else { 0 }) as nat,
{
    if k < subterms(t).len() {
        lemma_lex_self(t, order, k + 1);
    }
}

/// When the subterms of `s` and of `t` are each lexicographically greater
/// than the other's, the first differing position has each greater than
/// the other.
proof fn lemma_lex_both(s: STerm, t: STerm, order: Seq<Seq<char>>, k: int) -> (m: int)
    requires
        0 <= k,
        lpo_lex(s, t, order, k),
        lpo_lex(t, s, order, k),
    ensures
        k <= m < subterms(s).len(),
        m < subterms(t).len(),
        lpo(subterms(s)[m], subterms(t)[m], order),
        lpo(subterms(t)[m], subterms(s)[m], order),
    decreases subterms(s).len() - k,
{
    let a = subterms(s);
    let b = subterms(t);
    if k < a.len() && k < b.len() && a[k] == b[k] {
        lemma_lex_both(s, t, order, k + 1)
    } else {
        k
    }
}

/// A term greater than `s` is greater than each subterm of `s`.
proof fn lemma_lpo_above_subterm(t: STerm, s: STerm, order: Seq<Seq<char>>, i: int)
    requires
        lpo(t, s, order),
        0 <= i < subterms(s).len(),
    ensures
        lpo(t, subterms(s)[i], order),
    decreases size(t),
{
    let x = subterms(s)[i];
    if lpo_some_ge(t, s, order, 0) {
        let j = lemma_some_ge_elim(t, s, order, 0);
        let tj = subterms(t)[j];
        lemma_subterms_smaller(t, j);
        if tj == s {
            lemma_some_ge_intro(s, x, order, 0, i);
            assert(lpo(s, x, order));
        } else {
            lemma_lpo_above_subterm(tj, s, order, i);
        }
        lemma_some_ge_intro(t, x, order, 0, j);
    } else {
        lemma_all_elim(t, s, order, 0, i);
    }
}

/// No term is greater than itself in the path ordering.
pub proof fn lemma_lpo_irreflexive(t: STerm, order: Seq<Seq<char>>)
    ensures
        !lpo(t, t, order),
    decreases size(t),
{
    if lpo(t, t, order) {
        if lpo_some_ge(t, t, order, 0) {
            let j = lemma_some_ge_elim(t, t, order, 0);
            let tj = subterms(t)[j];
            lemma_subterms_smaller(t, j);
            lemma_lpo_above_subterm(tj, t, order, j);
            lemma_lpo_irreflexive(tj, order);
        } else {
            lemma_lex_self(t, order, 0);
        }
    }
}

/// Of two terms, at most one is greater than the other in the path
/// ordering: `s >lpo t` and `t >lpo s` never both hold. In particular, two
/// terms with the same head and the same number of arguments compare at
/// their first differing argument, and there only one side can win.
pub proof fn lemma_lpo_antisymmetric(s: STerm, t: STerm, order: Seq<Seq<char>>)
    ensures
        !(lpo(s, t, order) && lpo(t, s, order)),
    decreases size(s) + size(t),
{
    if lpo(s, t, order) && lpo(t, s, order) {
        if lpo_some_ge(s, t, order, 0) {
            let j = lemma_some_ge_elim(s, t, order, 0);
            let sj = subterms(s)[j];
            lemma_subterms_smaller(s, j);
            lemma_lpo_above_subterm(t, s, order, j);
            if sj == t {
                lemma_lpo_irreflexive(t, order);
            } else {
                lemma_lpo_antisymmetric(sj, t, order);
            }
        } else if lpo_some_ge(t, s, order, 0) {
            let j = lemma_some_ge_elim(t, s, order, 0);
            let tj = subterms(t)[j];
            lemma_subterms_smaller(t, j);
            lemma_lpo_above_subterm(s, t, order, j);
            if tj == s {
                lemma_lpo_irreflexive(s, order);
            } else {
                lemma_lpo_antisymmetric(s, tj, order);
            }
        } else {
            let m = lemma_lex_both(s, t, order, 0);
            lemma_subterms_smaller(s, m);
            lemma_subterms_smaller(t, m);
            lemma_lpo_antisymmetric(subterms(s)[m], subterms(t)[m], order);
        }
    }
}

/// The structural subterms of a term, copied.
fn subterms_of(t: &Term) -> (r: Vec<Term>)
    ensures
        view_terms(r@) == subterms(t@),
{
    match t {
        Term::App { args, .. } => {
            proof {
                lemma_app_view(*t);
            }
            crate::term::copy_terms(args)
        },
        Term::Case { scrutinee, branches } => {
            proof {
                lemma_case_view(*t);
            }
            let mut v: Vec<Term> = Vec::new();
            v.push(scrutinee.deep_copy());
            let mut i: usize = 0;
            while i < branches.len()
                invariant
                    i <= branches@.len(),
                    v@.len() == i + 1,
                    v@[0]@ == (**scrutinee)@,
                    forall|j: int| 0 <= j < i ==> #[trigger] v@[j + 1]@ == branches@[j].body@,
                decreases branches@.len() - i,
            {
                v.push(branches[i].body.deep_copy());
                i = i + 1;
            }
            proof {
                let bv = view_branches(branches@);
                assert forall|j: int| 0 <= j < v@.len() implies #[trigger] view_terms(v@)[j] == subterms(t@)[j] by {
                    if j > 0 {
                        assert(v@[(j - 1) + 1]@ == branches@[j - 1].body@);
                        assert(bv[j - 1].body == branches@[j - 1].body@);
                    }
                }
                assert(view_terms(v@) =~= subterms(t@));
            }
            v
        },
        Term::Let { bound, body, .. } => {
            let v = vec![bound.deep_copy(), body.deep_copy()];
            assert(view_terms(v@) =~= subterms(t@));
            v
        },
        _ => {
            let v: Vec<Term> = Vec::new();
            assert(view_terms(v@) =~= subterms(t@));
            v
        },
    }
}

/// The precedence head of a term.
fn structural_head(t: &Term) -> (r: Option<String>)
    ensures
        match r {
            Some(h) => head_name(t@) == Some(h@),
            None => head_name(t@) is None,
        },
{
    match t {
        Term::App { op, .. } => Some(op.clone()),
        Term::Case { .. } => Some("__case__".to_owned()),
        Term::Let { .. } => Some("__let__".to_owned()),
        _ => None,
    }
}

/// Whether `s >lpo t` under the precedence.
pub fn lpo_greater(s: &Term, t: &Term, prec: &OpPrecedence) -> (r: bool)
    ensures
        r == lpo(s@, t@, crate::term::names_view(prec.order@)),
    decreases size(s@) + size(t@), 2nat, 0nat,
{
    let ghost order = crate::term::names_view(prec.order@);
    match s {
        Term::Var(_) | Term::Hole { .. } => {
            return false;
        },
        _ => {},
    }
    let ss = subterms_of(s);
    let ghost sv = view_terms(ss@);
    let mut i: usize = 0;
    while i < ss.len()
        invariant
            sv == view_terms(ss@),
            sv == subterms(s@),
            order == crate::term::names_view(prec.order@),
            i <= ss@.len(),
            lpo_some_ge(s@, t@, order, 0) == lpo_some_ge(s@, t@, order, i as int),
        decreases ss@.len() - i,
    {
        proof {
            lemma_subterms_smaller(s@, i as int);
            assert(sv[i as int] == ss@[i as int]@);
        }
        if ss[i] == *t || lpo_greater(&ss[i], t, prec) {
            return true;
        }
        i = i + 1;
    }
    match t {
        Term::Var(x) => {
            let mut k: usize = 0;
            while k < ss.len()
                invariant
                    sv == view_terms(ss@),
                    sv == subterms(s@),
                    order == crate::term::names_view(prec.order@),
                    !lpo_some_ge(s@, t@, order, 0),
                    !(s@ is Var || s@ is Hole),
                    t@ == STerm::Var(x@),
                    k <= ss@.len(),
                    occurs_in_some(x@, sv, 0) == occurs_in_some(x@, sv, k as int),
                decreases ss@.len() - k,
            {
                proof {
                    assert(sv[k as int] == ss@[k as int]@);
                }
                if occurs(x, &ss[k]) {
                    return true;
                }
                k = k + 1;
            }
            false
        },
        Term::Hole { .. } => false,
        _ => {
            let f = match structural_head(s) {
                Some(h) => h,
                None => {
                    return false;
                },
            };
            let g = match structural_head(t) {
                Some(h) => h,
                None => {
                    return false;
                },
            };
            let ts = subterms_of(t);
            let ghost tv = view_terms(ts@);
            let rank = prec_rank_exec(prec, f.as_str(), g.as_str());
            if rank == 2 {
                lpo_all_exec(s, t, &ts, prec)
            } else if rank == 1 {
                if !lpo_all_exec(s, t, &ts, prec) {
                    return false;
                }
                lpo_lex_exec(s, t, &ss, &ts, prec)
            } else {
                false
            }
        },
    }
}

fn lpo_all_exec(s: &Term, t: &Term, ts: &Vec<Term>, prec: &OpPrecedence) -> (r: bool)
    requires
        view_terms(ts@) == subterms(t@),
    ensures
        r == lpo_all(s@, t@, crate::term::names_view(prec.order@), 0),
    decreases size(s@) + size(t@), 1nat, 0nat,
{
    let ghost order = crate::term::names_view(prec.order@);
    let ghost tv = view_terms(ts@);
    let mut j: usize = 0;
    while j < ts.len()
        invariant
            tv == view_terms(ts@),
            tv == subterms(t@),
            order == crate::term::names_view(prec.order@),
            j <= ts@.len(),
            lpo_all(s@, t@, order, 0) == lpo_all(s@, t@, order, j as int),
        decreases ts@.len() - j,
    {
        proof {
            lemma_subterms_smaller(t@, j as int);
            assert(tv[j as int] == ts@[j as int]@);
        }
        if !lpo_greater(s, &ts[j], prec) {
            return false;
        }
        j = j + 1;
    }
    true
}

fn lpo_lex_exec(s: &Term, t: &Term, ss: &Vec<Term>, ts: &Vec<Term>, prec: &OpPrecedence) -> (r: bool)
    requires
        view_terms(ss@) == subterms(s@),
        view_terms(ts@) == subterms(t@),
    ensures
        r == lpo_lex(s@, t@, crate::term::names_view(prec.order@), 0),
    decreases size(s@) + size(t@), 1nat, 0nat,
{
    let ghost order = crate::term::names_view(prec.order@);
    let ghost a = view_terms(ss@);
    let ghost b = view_terms(ts@);
    let mut k: usize = 0;
    while k < ss.len() && k < ts.len()
        invariant
            a == view_terms(ss@),
            b == view_terms(ts@),
            a == subterms(s@),
            b == subterms(t@),
            order == crate::term::names_view(prec.order@),
            k <= ss@.len(),
            k <= ts@.len(),
            lpo_lex(s@, t@, order, 0) == lpo_lex(s@, t@, order, k as int),
        decreases ss@.len() - k,
    {
        proof {
            lemma_subterms_smaller(s@, k as int);
            lemma_subterms_smaller(t@, k as int);
            assert(a[k as int] == ss@[k as int]@);
            assert(b[k as int] == ts@[k as int]@);
        }
        if !(ss[k] == ts[k]) {
            return lpo_greater(&ss[k], &ts[k], prec);
        }
        k = k + 1;
    }
    ss.len() > ts.len()
}

// ---------------------------------------------------------------------------
// First-order unification
// ---------------------------------------------------------------------------

/// The budget of worklist steps a unification starts with.
pub open spec fn unify_budget() -> nat {
    0xffff_ffff_ffff_ffffnat
}

/// Extend the unifier `s` with `n := t`, applying it to the existing
/// bindings first.
pub open spec fn bind_var(s: Map<Seq<char>, STerm>, n: Seq<char>, t: STerm) -> Map<Seq<char>, STerm> {
    Map::new(|k: Seq<char>| s.contains_key(k), |k: Seq<char>| subst(s[k], Map::empty().insert(n, t))).insert(n, t)
}

/// Worklist unification: take the last equation, apply the unifier to both
/// sides; equal variables are dropped; a variable (on the left first) is
/// bound to the other side unless it occurs there; two applications with
/// the same operation and arity push their argument pairs; anything else
/// fails. Each step spends one unit of `fuel`; running out fails.
pub open spec fn unify_fuel(eqs: Seq<(STerm, STerm)>, s: Map<Seq<char>, STerm>, fuel: nat) -> Option<Map<Seq<char>, STerm>>
    decreases fuel,
{
    if eqs.len() == 0 {
        Some(s)
    } else if fuel == 0 {
        None
    } else {
        let rest = eqs.drop_last();
        let l = subst(eqs.last().0, s);
        let r = subst(eqs.last().1, s);
        let f = (fuel - 1) as nat;
        match l {
            STerm::Var(n1) => {
                if r == STerm::Var(n1) {
                    unify_fuel(rest, s, f)
                } else if occurs_spec(n1, r) {
                    None
                } else {
                    unify_fuel(rest, bind_var(s, n1, r), f)
                }
            },
            _ => match r {
                STerm::Var(n) => if occurs_spec(n, l) {
                    None
                } else {
                    unify_fuel(rest, bind_var(s, n, l), f)
                },
                STerm::App { op: ob, args: bb } => match l {
                    STerm::App { op: oa, args: aa } => if oa != ob || aa.len() != bb.len() {
                        None
                    } else {
                        unify_fuel(rest + Seq::new(aa.len(), |i: int| (aa[i], bb[i])), s, f)
                    },
                    _ => None,
                },
                _ => None,
            },
        }
    }
}

/// The most general unifier of two terms, if the worklist finds one.
pub open spec fn unify_spec(l: STerm, r: STerm) -> Option<Map<Seq<char>, STerm>> {
    unify_fuel(seq![(l, r)], Map::empty(), unify_budget())
}

/// A term built from variables, holes and applications alone: no case
/// and no `let` binds a name in it.
pub open spec fn first_order(t: STerm) -> bool
    decreases t, 0nat,
{
    match t {
        STerm::Var(_) => true,
        STerm::Hole { .. } => true,
        STerm::App { args, .. } => first_order_list(args, 0),
        _ => false,
    }
}

/// [`first_order`] of every term of a list from position `i` on.
pub open spec fn first_order_list(a: Seq<STerm>, i: int) -> bool
    decreases a, (if 0 <= i < a.len() { a.len() - i } else { 0 }) as nat,
{
    if 0 <= i < a.len() {
        first_order(a[i]) && first_order_list(a, i + 1)
    } else {
        true
    }
}

/// No variable bound by the substitution occurs in what it binds, so
/// applying it twice is applying it once.
pub open spec fn idempotent_subst(s: Map<Seq<char>, STerm>) -> bool {
    forall|k: Seq<char>, x: Seq<char>| s.contains_key(k) && #[trigger] occurs_spec(x, s[k]) ==> !s.contains_key(x)
}

/// What a substitution makes of the variable `x`.
spec fn lookup(s: Map<Seq<char>, STerm>, x: Seq<char>) -> STerm {
    if s.contains_key(x) {
        s[x]
    } else {
        STerm::Var(x)
    }
}

/// Substitution into the variables and applications of a term.
spec fn fo_subst(t: STerm, s: Map<Seq<char>, STerm>) -> STerm
    decreases t,
{
    match t {
        STerm::Var(x) => lookup(s, x),
        STerm::App { op, args } => STerm::App {
            op,
            args: Seq::new(
                args.len(),
                |i: int|
                    if 0 <= i < args.len() {
                        fo_subst(args[i], s)
                    } else {
                        STerm::Var(Seq::empty())
                    },
            ),
        },
        _ => t,
    }
}

/// Every value of the substitution is first-order.
spec fn map_first_order(s: Map<Seq<char>, STerm>) -> bool {
    forall|k: Seq<char>| s.contains_key(k) ==> first_order(#[trigger] s[k])
}

/// Both sides of every pair are first-order.
spec fn pairs_first_order(eqs: Seq<(STerm, STerm)>) -> bool {
    forall|i: int| 0 <= i < eqs.len() ==> first_order((#[trigger] eqs[i]).0) && first_order(eqs[i].1)
}

/// `r` applied after `s` is `r`.
spec fn absorbs(r: Map<Seq<char>, STerm>, s: Map<Seq<char>, STerm>) -> bool {
    forall|x: Seq<char>| #[trigger] lookup(r, x) == fo_subst(lookup(s, x), r)
}

proof fn lemma_first_order_list_elim(a: Seq<STerm>, i: int, k: int)
    requires
        0 <= i <= k < a.len(),
        first_order_list(a, i),
    ensures
        first_order(a[k]),
    decreases k - i,
{
    if i < k {
        lemma_first_order_list_elim(a, i + 1, k);
    }
}

proof fn lemma_first_order_list_intro(a: Seq<STerm>, i: int)
    requires
        0 <= i,
        forall|k: int| i <= k < a.len() ==> first_order(#[trigger] a[k]),
    ensures
        first_order_list(a, i),
    decreases (if i < a.len() { a.len() - i } else { 0 }) as nat,
{
    if i < a.len() {
        lemma_first_order_list_intro(a, i + 1);
    }
}

proof fn lemma_occurs_list_elim(x: Seq<char>, a: Seq<STerm>, i: int) -> (k: int)
    requires
        0 <= i,
        occurs_list(x, a, i),
    ensures
        i <= k < a.len(),
        occurs_spec(x, a[k]),
    decreases a.len() - i,
{
    if occurs_spec(x, a[i]) {
        i
    } else {
        lemma_occurs_list_elim(x, a, i + 1)
    }
}

proof fn lemma_occurs_list_intro(x: Seq<char>, a: Seq<STerm>, i: int, k: int)
    requires
        0 <= i <= k < a.len(),
        occurs_spec(x, a[k]),
    ensures
        occurs_list(x, a, i),
    decreases k - i,
{
    if i < k {
        lemma_occurs_list_intro(x, a, i + 1, k);
    }
}

/// On a first-order term, substitution with enough fuel is [`fo_subst`].
proof fn lemma_subst_first_order(t: STerm, s: Map<Seq<char>, STerm>, fuel: nat)
    requires
        first_order(t),
        fuel >= size(t),
    ensures
        crate::eq::subst_fuel(t, s, fuel) == fo_subst(t, s),
    decreases t,
{
    match t {
        STerm::App { op, args } => {
            assert forall|i: int| 0 <= i < args.len() implies crate::eq::subst_fuel(args[i], s, (fuel - 1) as nat) == fo_subst(
                args[i],
                s,
            ) by {
                lemma_first_order_list_elim(args, 0, i);
                lemma_args_size(args, i);
                lemma_subst_first_order(args[i], s, (fuel - 1) as nat);
            }
            let a1 = match crate::eq::subst_fuel(t, s, fuel) {
                STerm::App { args: a1, .. } => a1,
                _ => Seq::empty(),
            };
            let a2 = match fo_subst(t, s) {
                STerm::App { args: a2, .. } => a2,
                _ => Seq::empty(),
            };
            assert(a1 =~= a2);
        },
        _ => {},
    }
}

/// Substitution into a first-order term by a first-order map stays
/// first-order.
proof fn lemma_fo_subst_first_order(t: STerm, s: Map<Seq<char>, STerm>)
    requires
        first_order(t),
        map_first_order(s),
    ensures
        first_order(fo_subst(t, s)),
    decreases t,
{
    match t {
        STerm::App { op, args } => {
            let a2 = match fo_subst(t, s) {
                STerm::App { args: a2, .. } => a2,
                _ => Seq::empty(),
            };
            assert forall|k: int| 0 <= k < a2.len() implies first_order(#[trigger] a2[k]) by {
                lemma_first_order_list_elim(args, 0, k);
                lemma_fo_subst_first_order(args[k], s);
            }
            lemma_first_order_list_intro(a2, 0);
        },
        _ => {},
    }
}

/// A variable of a substituted first-order term comes from the image of a
/// variable of the term.
proof fn lemma_fo_subst_occurs(t: STerm, s: Map<Seq<char>, STerm>, x: Seq<char>) -> (y: Seq<char>)
    requires
        first_order(t),
        occurs_spec(x, fo_subst(t, s)),
    ensures
        occurs_spec(y, t),
        occurs_spec(x, lookup(s, y)),
    decreases t,
{
    match t {
        STerm::Var(v) => v,
        STerm::App { op, args } => {
            let a2 = match fo_subst(t, s) {
                STerm::App { args: a2, .. } => a2,
                _ => Seq::empty(),
            };
            let k = lemma_occurs_list_elim(x, a2, 0);
            lemma_first_order_list_elim(args, 0, k);
            let y = lemma_fo_subst_occurs(args[k], s, x);
            lemma_occurs_list_intro(y, args, 0, k);
            y
        },
        _ => Seq::empty(),
    }
}

/// Composition: when `s3` sends each variable of `t` to what `s1` then
/// `s2` make of it, `s3` does to `t` what `s1` then `s2` do.
proof fn lemma_fo_subst_compose(t: STerm, s1: Map<Seq<char>, STerm>, s2: Map<Seq<char>, STerm>, s3: Map<Seq<char>, STerm>)
    requires
        first_order(t),
        forall|x: Seq<char>| #[trigger] occurs_spec(x, t) ==> lookup(s3, x) == fo_subst(lookup(s1, x), s2),
    ensures
        fo_subst(t, s3) == fo_subst(fo_subst(t, s1), s2),
    decreases t,
{
    match t {
        STerm::Var(v) => {
            assert(occurs_spec(v, t));
        },
        STerm::App { op, args } => {
            let a3 = match fo_subst(t, s3) {
                STerm::App { args: a3, .. } => a3,
                _ => Seq::empty(),
            };
            let a1 = match fo_subst(t, s1) {
                STerm::App { args: a1, .. } => a1,
                _ => Seq::empty(),
            };
            let a12 = match fo_subst(fo_subst(t, s1), s2) {
                STerm::App { args: a12, .. } => a12,
                _ => Seq::empty(),
            };
            assert forall|i: int| 0 <= i < args.len() implies a3[i] == a12[i] by {
                lemma_first_order_list_elim(args, 0, i);
                assert forall|x: Seq<char>| #[trigger] occurs_spec(x, args[i]) implies lookup(s3, x) == fo_subst(
                    lookup(s1, x),
                    s2,
                ) by {
                    lemma_occurs_list_intro(x, args, 0, i);
                    assert(occurs_spec(x, t));
                }
                lemma_fo_subst_compose(args[i], s1, s2, s3);
                assert(a1[i] == fo_subst(args[i], s1));
            }
            assert(a3 =~= a12);
        },
        _ => {},
    }
}

/// A substitution that binds no variable of a first-order term leaves it
/// as it is.
proof fn lemma_fo_subst_untouched(t: STerm, s: Map<Seq<char>, STerm>)
    requires
        first_order(t),
        forall|x: Seq<char>| #[trigger] occurs_spec(x, t) ==> !s.contains_key(x),
    ensures
        fo_subst(t, s) == t,
    decreases t,
{
    match t {
        STerm::Var(v) => {
            assert(occurs_spec(v, t));
        },
        STerm::App { op, args } => {
            let a2 = match fo_subst(t, s) {
                STerm::App { args: a2, .. } => a2,
                _ => Seq::empty(),
            };
            assert forall|i: int| 0 <= i < args.len() implies a2[i] == args[i] by {
                lemma_first_order_list_elim(args, 0, i);
                assert forall|x: Seq<char>| #[trigger] occurs_spec(x, args[i]) implies !s.contains_key(x) by {
                    lemma_occurs_list_intro(x, args, 0, i);
                    assert(occurs_spec(x, t));
                }
                lemma_fo_subst_untouched(args[i], s);
            }
            assert(a2 =~= args);
        },
        _ => {},
    }
}

/// Under an idempotent first-order substitution, no variable of a
/// substituted first-order term is bound.
proof fn lemma_fo_subst_avoids(t: STerm, s: Map<Seq<char>, STerm>)
    requires
        first_order(t),
        idempotent_subst(s),
    ensures
        forall|x: Seq<char>| #[trigger] occurs_spec(x, fo_subst(t, s)) ==> !s.contains_key(x),
{
    assert forall|x: Seq<char>| #[trigger] occurs_spec(x, fo_subst(t, s)) implies !s.contains_key(x) by {
        let y = lemma_fo_subst_occurs(t, s, x);
        if !s.contains_key(y) {
            assert(lookup(s, y) == STerm::Var(y));
        }
    }
}

/// An idempotent first-order substitution absorbs itself.
proof fn lemma_absorbs_self(s: Map<Seq<char>, STerm>)
    requires
        map_first_order(s),
        idempotent_subst(s),
    ensures
        absorbs(s, s),
{
    assert forall|x: Seq<char>| #[trigger] lookup(s, x) == fo_subst(lookup(s, x), s) by {
        if s.contains_key(x) {
            assert(first_order(s[x]));
            lemma_fo_subst_untouched(s[x], s);
        }
    }
}

/// A substitution that absorbs `s` does to a first-order term what `s`
/// then it do.
proof fn lemma_absorbs_apply(u: STerm, r: Map<Seq<char>, STerm>, s: Map<Seq<char>, STerm>)
    requires
        first_order(u),
        absorbs(r, s),
    ensures
        fo_subst(u, r) == fo_subst(fo_subst(u, s), r),
{
    assert forall|x: Seq<char>| #[trigger] occurs_spec(x, u) implies lookup(r, x) == fo_subst(lookup(s, x), r) by {
        assert(lookup(r, x) == fo_subst(lookup(s, x), r));
    }
    lemma_fo_subst_compose(u, s, r, r);
}

/// Binding a fresh variable to a first-order term free of bound variables
/// and of itself keeps the substitution first-order and idempotent.
proof fn lemma_bind_var_props(s: Map<Seq<char>, STerm>, n: Seq<char>, t: STerm)
    requires
        map_first_order(s),
        idempotent_subst(s),
        first_order(t),
        !s.contains_key(n),
        !occurs_spec(n, t),
        forall|x: Seq<char>| #[trigger] occurs_spec(x, t) ==> !s.contains_key(x),
    ensures
        map_first_order(bind_var(s, n, t)),
        idempotent_subst(bind_var(s, n, t)),
        forall|k: Seq<char>| s.contains_key(k) ==> #[trigger] bind_var(s, n, t)[k] == fo_subst(s[k], Map::empty().insert(n, t)),
        bind_var(s, n, t).contains_key(n),
        bind_var(s, n, t)[n] == t,
{
    let single = Map::<Seq<char>, STerm>::empty().insert(n, t);
    let b = bind_var(s, n, t);
    assert(map_first_order(single));
    assert forall|k: Seq<char>| s.contains_key(k) implies #[trigger] b[k] == fo_subst(s[k], single) by {
        assert(first_order(s[k]));
        lemma_subst_first_order(s[k], single, size(s[k]));
    }
    assert forall|k: Seq<char>| b.contains_key(k) implies first_order(#[trigger] b[k]) by {
        if k != n {
            assert(first_order(s[k]));
            lemma_fo_subst_first_order(s[k], single);
        }
    }
    assert forall|k: Seq<char>, x: Seq<char>| b.contains_key(k) && #[trigger] occurs_spec(x, b[k]) implies !b.contains_key(x) by {
        if k != n {
            assert(first_order(s[k]));
            let y = lemma_fo_subst_occurs(s[k], single, x);
            assert(!s.contains_key(y));
            if y == n {
                assert(lookup(single, y) == t);
            } else {
                assert(lookup(single, y) == STerm::Var(y));
            }
        }
    }
}

/// A first-order worklist unifier: started from an idempotent
/// first-order substitution, the result is idempotent and first-order,
/// absorbs the start, and makes the two sides of every pair equal.
proof fn lemma_unify_fuel_sound(eqs: Seq<(STerm, STerm)>, s: Map<Seq<char>, STerm>, fuel: nat)
    requires
        pairs_first_order(eqs),
        map_first_order(s),
        idempotent_subst(s),
        unify_fuel(eqs, s, fuel) is Some,
    ensures
        ({
            let r = unify_fuel(eqs, s, fuel)->0;
            &&& map_first_order(r)
            &&& idempotent_subst(r)
            &&& absorbs(r, s)
            &&& forall|i: int| 0 <= i < eqs.len() ==> fo_subst((#[trigger] eqs[i]).0, r) == fo_subst(eqs[i].1, r)
        }),
    decreases fuel,
{
    if eqs.len() == 0 {
        lemma_absorbs_self(s);
        return;
    }
    let rest = eqs.drop_last();
    let a0 = eqs.last().0;
    let b0 = eqs.last().1;
    assert(eqs[eqs.len() - 1] == eqs.last());
    assert(first_order(a0) && first_order(b0));
    lemma_subst_first_order(a0, s, size(a0));
    lemma_subst_first_order(b0, s, size(b0));
    let l = subst(a0, s);
    let r = subst(b0, s);
    assert(l == fo_subst(a0, s));
    assert(r == fo_subst(b0, s));
    lemma_fo_subst_first_order(a0, s);
    lemma_fo_subst_first_order(b0, s);
    lemma_fo_subst_avoids(a0, s);
    lemma_fo_subst_avoids(b0, s);
    let f = (fuel - 1) as nat;
    assert(pairs_first_order(rest)) by {
        assert forall|i: int| 0 <= i < rest.len() implies first_order((#[trigger] rest[i]).0) && first_order(rest[i].1) by {
            assert(rest[i] == eqs[i]);
        }
    }
    match l {
        STerm::Var(n1) => {
            assert(!s.contains_key(n1)) by {
                assert(occurs_spec(n1, l));
            }
            if r == STerm::Var(n1) {
                lemma_unify_fuel_sound(rest, s, f);
                let res = unify_fuel(eqs, s, fuel)->0;
                lemma_absorbs_apply(a0, res, s);
                lemma_absorbs_apply(b0, res, s);
                assert forall|i: int| 0 <= i < eqs.len() implies fo_subst((#[trigger] eqs[i]).0, res) == fo_subst(eqs[i].1, res) by {
                    if i < rest.len() {
                        assert(rest[i] == eqs[i]);
                    }
                }
            } else {
                lemma_bind_step(eqs, s, fuel, n1, r, a0, b0, true);
            }
        },
        _ => match r {
            STerm::Var(n) => {
                assert(!s.contains_key(n)) by {
                    assert(occurs_spec(n, r));
                }
                lemma_bind_step(eqs, s, fuel, n, l, a0, b0, false);
            },
            STerm::App { op: ob, args: bb } => match l {
                STerm::App { op: oa, args: aa } => {
                    let pairs = Seq::new(aa.len(), |i: int| (aa[i], bb[i]));
                    let eqs2 = rest + pairs;
                    assert(pairs_first_order(eqs2)) by {
                        assert forall|i: int| 0 <= i < eqs2.len() implies first_order((#[trigger] eqs2[i]).0) && first_order(
                            eqs2[i].1,
                        ) by {
                            if i < rest.len() {
                                assert(eqs2[i] == rest[i]);
                            } else {
                                lemma_first_order_list_elim(aa, 0, i - rest.len());
                                lemma_first_order_list_elim(bb, 0, i - rest.len());
                            }
                        }
                    }
                    lemma_unify_fuel_sound(eqs2, s, f);
                    let res = unify_fuel(eqs, s, fuel)->0;
                    let la = match fo_subst(l, res) {
                        STerm::App { args: x, .. } => x,
                        _ => Seq::empty(),
                    };
                    let ra = match fo_subst(r, res) {
                        STerm::App { args: x, .. } => x,
                        _ => Seq::empty(),
                    };
                    assert forall|i: int| 0 <= i < la.len() implies la[i] == ra[i] by {
                        assert(eqs2[rest.len() + i] == (aa[i], bb[i]));
                    }
                    assert(la =~= ra);
                    lemma_absorbs_apply(a0, res, s);
                    lemma_absorbs_apply(b0, res, s);
                    assert forall|i: int| 0 <= i < eqs.len() implies fo_subst((#[trigger] eqs[i]).0, res) == fo_subst(eqs[i].1, res) by {
                        if i < rest.len() {
                            assert(rest[i] == eqs[i]);
                            assert(eqs2[i] == rest[i]);
                        }
                    }
                },
                _ => {},
            },
            _ => {},
        },
    }
}

/// The binding step of [`lemma_unify_fuel_sound`]: the last pair's
/// substituted sides are the variable `n` and the term `t` (`n` from the
/// left side when `left`).
proof fn lemma_bind_step(
    eqs: Seq<(STerm, STerm)>,
    s: Map<Seq<char>, STerm>,
    fuel: nat,
    n: Seq<char>,
    t: STerm,
    a0: STerm,
    b0: STerm,
    left: bool,
)
    requires
        eqs.len() > 0,
        fuel > 0,
        eqs.last() == (a0, b0),
        pairs_first_order(eqs),
        map_first_order(s),
        idempotent_subst(s),
        first_order(a0),
        first_order(b0),
        first_order(t),
        !s.contains_key(n),
        forall|x: Seq<char>| #[trigger] occurs_spec(x, t) ==> !s.contains_key(x),
        left ==> fo_subst(a0, s) == STerm::Var(n) && fo_subst(b0, s) == t,
        !left ==> fo_subst(b0, s) == STerm::Var(n) && fo_subst(a0, s) == t,
        t != STerm::Var(n),
        unify_fuel(eqs, s, fuel) == (if occurs_spec(n, t) {
            None
        } else {
            unify_fuel(eqs.drop_last(), bind_var(s, n, t), (fuel - 1) as nat)
        }),
        unify_fuel(eqs, s, fuel) is Some,
    ensures
        ({
            let r = unify_fuel(eqs, s, fuel)->0;
            &&& map_first_order(r)
            &&& idempotent_subst(r)
            &&& absorbs(r, s)
            &&& forall|i: int| 0 <= i < eqs.len() ==> fo_subst((#[trigger] eqs[i]).0, r) == fo_subst(eqs[i].1, r)
        }),
    decreases fuel, 0nat,
{
    let rest = eqs.drop_last();
    let b = bind_var(s, n, t);
    lemma_bind_var_props(s, n, t);
    assert(pairs_first_order(rest)) by {
        assert forall|i: int| 0 <= i < rest.len() implies first_order((#[trigger] rest[i]).0) && first_order(rest[i].1) by {
            assert(rest[i] == eqs[i]);
        }
    }
    lemma_unify_fuel_sound(rest, b, (fuel - 1) as nat);
    let res = unify_fuel(eqs, s, fuel)->0;
    let single = Map::<Seq<char>, STerm>::empty().insert(n, t);
    assert forall|x: Seq<char>| #[trigger] lookup(res, x) == fo_subst(lookup(s, x), res) by {
        assert(lookup(res, x) == fo_subst(lookup(b, x), res));
        if s.contains_key(x) {
            assert(first_order(s[x]));
            assert(b[x] == fo_subst(s[x], single));
            assert forall|y: Seq<char>| #[trigger] occurs_spec(y, s[x]) implies lookup(res, y) == fo_subst(lookup(single, y), res) by {
                assert(lookup(res, y) == fo_subst(lookup(b, y), res));
                if y != n {
                    assert(!s.contains_key(y));
                    assert(lookup(b, y) == STerm::Var(y));
                }
            }
            lemma_fo_subst_compose(s[x], single, res, res);
        }
    }
    assert(absorbs(res, s));
    lemma_absorbs_apply(a0, res, s);
    lemma_absorbs_apply(b0, res, s);
    assert(lookup(res, n) == fo_subst(t, res)) by {
        assert(lookup(res, n) == fo_subst(lookup(b, n), res));
    }
    assert forall|i: int| 0 <= i < eqs.len() implies fo_subst((#[trigger] eqs[i]).0, res) == fo_subst(eqs[i].1, res) by {
        if i < rest.len() {
            assert(rest[i] == eqs[i]);
        } else {
            assert(eqs[i] == eqs.last());
        }
    }
}

/// Soundness of unification on first-order terms: when two terms built
/// from variables, holes and applications unify, the unifier is
/// idempotent and makes them equal.
pub proof fn lemma_unify_sound(l: STerm, r: STerm)
    requires
        first_order(l),
        first_order(r),
        unify_spec(l, r) is Some,
    ensures
        idempotent_subst(unify_spec(l, r)->0),
        subst(l, unify_spec(l, r)->0) == subst(r, unify_spec(l, r)->0),
{
    let eqs = seq![(l, r)];
    let empty = Map::<Seq<char>, STerm>::empty();
    assert(pairs_first_order(eqs)) by {
        assert forall|i: int| 0 <= i < eqs.len() implies first_order((#[trigger] eqs[i]).0) && first_order(eqs[i].1) by {
            assert(eqs[i] == (l, r));
        }
    }
    lemma_unify_fuel_sound(eqs, empty, unify_budget());
    let u = unify_spec(l, r)->0;
    assert(eqs[0] == (l, r));
    lemma_subst_first_order(l, u, size(l));
    lemma_subst_first_order(r, u, size(r));
}

/// The models of a worklist.
pub open spec fn pairs_view(v: Seq<(Term, Term)>) -> Seq<(STerm, STerm)> {
    Seq::new(v.len(), |i: int| (v[i].0@, v[i].1@))
}

fn bind_exec(s: &mut Subst, n: &String, t: &Term)
    ensures
        final(s)@ == bind_var(old(s)@, n@, t@),
{
    let mut single = Subst::new();
    single.insert(n.clone(), t.deep_copy());
    let ghost es = s.entries@;
    let ghost f = |x: STerm| subst(x, Map::empty().insert(n@, t@));
    let mut i: usize = 0;
    while i < s.entries.len()
        invariant
            single@ == Map::<Seq<char>, STerm>::empty().insert(n@, t@),
            f == (|x: STerm| subst(x, Map::empty().insert(n@, t@))),
            s.entries@.len() == es.len(),
            i <= es.len(),
            forall|j: int| 0 <= j < es.len() ==> #[trigger] s.entries@[j].0@ == es[j].0@,
            forall|j: int| 0 <= j < i ==> #[trigger] s.entries@[j].1@ == f(es[j].1@),
            forall|j: int| i <= j < es.len() ==> #[trigger] s.entries@[j].1@ == es[j].1@,
        decreases es.len() - i,
    {
        let k = s.entries[i].0.clone();
        let v = s.entries[i].1.substitute(&single);
        s.entries.set(i, (k, v));
        i = i + 1;
    }
    proof {
        lemma_entries_map_values(es, s.entries@, f);
        assert(s@ == Map::new(|k: Seq<char>| entries_map(es).contains_key(k), |k: Seq<char>| f(entries_map(es)[k])));
    }
    s.insert(n.clone(), t.deep_copy());
    proof {
        assert(s@ =~= bind_var(old(s)@, n@, t@));
    }
}

/// First-order unification of two terms, treating every variable as a
/// unification variable.
pub fn first_order_unify(left: &Term, right: &Term) -> (r: Option<Subst>)
    ensures
        match r {
            Some(s) => unify_spec(left@, right@) == Some(s@),
            None => unify_spec(left@, right@) is None,
        },
{
    let mut s = Subst::new();
    let mut eqs: Vec<(Term, Term)> = Vec::new();
    eqs.push((left.deep_copy(), right.deep_copy()));
    let mut fuel: u64 = 0xffff_ffff_ffff_ffffu64;
    proof {
        assert(pairs_view(eqs@) =~= seq![(left@, right@)]);
    }
    let ghost target = unify_spec(left@, right@);
    loop
        invariant
            target == unify_spec(left@, right@),
            unify_fuel(pairs_view(eqs@), s@, fuel as nat) == target,
        decreases fuel,
    {
        if eqs.len() == 0 {
            return Some(s);
        }
        if fuel == 0 {
            return None;
        }
        let ghost ev = pairs_view(eqs@);
        let ghost sv = s@;
        fuel = fuel - 1;
        let (l0, r0) = eqs.pop().unwrap();
        proof {
            assert(pairs_view(eqs@) =~= ev.drop_last());
            assert(ev.last() == (l0@, r0@));
        }
        let l = l0.substitute(&s);
        let r = r0.substitute(&s);
        match &l {
            Term::Var(n1) => {
                let same = match &r {
                    Term::Var(n2) => *n1 == *n2,
                    _ => false,
                };
                if same {
                } else {
                    if occurs(n1, &r) {
                        return None;
                    }
                    bind_exec(&mut s, n1, &r);
                }
            },
            _ => match &r {
                Term::Var(n) => {
                    if occurs(n, &l) {
                        return None;
                    }
                    bind_exec(&mut s, n, &l);
                },
                Term::App { op: ob, args: bb } => match &l {
                    Term::App { op: oa, args: aa } => {
                        proof {
                            lemma_app_view(l);
                            lemma_app_view(r);
                        }
                        if !(*oa == *ob) || aa.len() != bb.len() {
                            return None;
                        }
                        let ghost base = pairs_view(eqs@);
                        let mut k: usize = 0;
                        while k < aa.len()
                            invariant
                                aa@.len() == bb@.len(),
                                k <= aa@.len(),
                                pairs_view(eqs@) == base + Seq::new(k as nat, |i: int| (aa@[i]@, bb@[i]@)),
                            decreases aa@.len() - k,
                        {
                            let ghost before = pairs_view(eqs@);
                            let pa = aa[k].deep_copy();
                            let pb = bb[k].deep_copy();
                            eqs.push((pa, pb));
                            proof {
                                assert(pairs_view(eqs@) =~= before.push((aa@[k as int]@, bb@[k as int]@)));
                                assert(pairs_view(eqs@) =~= base + Seq::new((k + 1) as nat, |i: int| (aa@[i]@, bb@[i]@)));
                            }
                            k = k + 1;
                        }
                        proof {
                            let va = view_terms(aa@);
                            let vb = view_terms(bb@);
                            assert(Seq::new(k as nat, |i: int| (aa@[i]@, bb@[i]@)) =~= Seq::new(va.len(), |i: int| (va[i], vb[i])));
                        }
                    },
                    _ => {
                        return None;
                    },
                },
                _ => {
                    proof {
                        match l@ {
                            STerm::App { .. } => {
                                lemma_app_view(r);
                            },
                            _ => {},
                        }
                    }
                    return None;
                },
            },
        }
    }
}

// ---------------------------------------------------------------------------
// Critical pairs and local confluence
// ---------------------------------------------------------------------------

/// The renaming that sends each variable of the rule's sides to itself
/// followed by `__`, the other rule's name and `_cp`.
pub open spec fn fresh_map(lhs_vars: Seq<Seq<char>>, rhs_vars: Seq<Seq<char>>, other: Seq<char>) -> Map<Seq<char>, STerm> {
    Map::new(
        |v: Seq<char>| lhs_vars.contains(v) || rhs_vars.contains(v),
        |v: Seq<char>| STerm::Var(v + "__"@ + other + "_cp"@),
    )
}

/// The renaming of a rule apart from the rule named `other`.
pub open spec fn rule_fresh_map(r: SDirectedEquation, other: Seq<char>) -> Map<Seq<char>, STerm> {
    fresh_map(vars_acc(r.lhs, Seq::empty()), vars_acc(r.rhs, Seq::empty()), other)
}

fn insert_fresh(rename: &mut Subst, vs: &Vec<String>, other: &String)
    ensures
        final(rename)@ == Map::new(
            |v: Seq<char>| old(rename)@.contains_key(v) || crate::term::names_view(vs@).contains(v),
            |v: Seq<char>| if crate::term::names_view(vs@).contains(v) {
                STerm::Var(v + "__"@ + other@ + "_cp"@)
            } else {
                old(rename)@[v]
            },
        ),
{
    let ghost start = rename@;
    let ghost nv = crate::term::names_view(vs@);
    let mut i: usize = 0;
    proof {
        reveal_strlit("__");
        reveal_strlit("_cp");
    }
    while i < vs.len()
        invariant
            start == old(rename)@,
            nv == crate::term::names_view(vs@),
            i <= vs@.len(),
            rename@ == Map::new(
                |v: Seq<char>| start.contains_key(v) || nv.take(i as int).contains(v),
                |v: Seq<char>| if nv.take(i as int).contains(v) {
                    STerm::Var(v + "__"@ + other@ + "_cp"@)
                } else {
                    start[v]
                },
            ),
        decreases vs@.len() - i,
    {
        let mut f = vs[i].clone();
        f.append("__");
        f.append(other.as_str());
        f.append("_cp");
        rename.insert(vs[i].clone(), Term::Var(f));
        proof {
            assert(nv.take(i + 1) =~= nv.take(i as int).push(nv[i as int]));
            assert forall|v: Seq<char>| #[trigger] nv.take(i + 1).contains(v) == (nv.take(i as int).contains(v) || v == nv[i as int]) by {
                if nv.take(i + 1).contains(v) {
                    let q = choose|q: int| 0 <= q < i + 1 && #[trigger] nv.take(i + 1)[q] == v;
                    if q < i {
                        assert(nv.take(i as int)[q] == v);
                    }
                }
                if nv.take(i as int).contains(v) {
                    let q = choose|q: int| 0 <= q < i && #[trigger] nv.take(i as int)[q] == v;
                    assert(nv.take(i + 1)[q] == v);
                }
                if v == nv[i as int] {
                    assert(nv.take(i + 1)[i as int] == v);
                }
            }
            assert(rename@ =~= Map::new(
                |v: Seq<char>| start.contains_key(v) || nv.take(i + 1).contains(v),
                |v: Seq<char>| if nv.take(i + 1).contains(v) {
                    STerm::Var(v + "__"@ + other@ + "_cp"@)
                } else {
                    start[v]
                },
            ));
        }
        i = i + 1;
    }
    proof {
        assert(nv.take(nv.len() as int) =~= nv);
    }
}

/// Rename the variables of a rule apart from those of the rule named
/// `other`.
fn freshen_rule(r: &DirectedEquation, other: &String) -> (d: DirectedEquation)
    ensures
        d.name@ == r.name@,
        d.lhs@ == subst(r.lhs@, rule_fresh_map(r@, other@)),
        d.rhs@ == subst(r.rhs@, rule_fresh_map(r@, other@)),
{
    let lv = collect_vars(&r.lhs);
    let rv = collect_vars(&r.rhs);
    let mut rename = Subst::new();
    insert_fresh(&mut rename, &lv, other);
    insert_fresh(&mut rename, &rv, other);
    proof {
        assert(rename@ =~= rule_fresh_map(r@, other@));
    }
    DirectedEquation {
        name: r.name.clone(),
        lhs: r.lhs.substitute(&rename),
        rhs: r.rhs.substitute(&rename),
        impl_term: r.impl_term.clone(),
        inverse: r.inverse.clone(),
        source_kind: r.source_kind,
        target_kind: r.target_kind,
        coercion_class: r.coercion_class,
    }
}

/// A critical pair between two rules.
#[derive(Debug)]
pub struct CriticalPair {
    /// The outer rule.
    pub rule_a: String,
    /// The inner rule.
    pub rule_b: String,
    /// The reduct by the outer rule.
    pub left: Term,
    /// The reduct by the inner rule at the overlap.
    pub right: Term,
    /// Whether the reducts normalize to the same term.
    pub joins: bool,
}

/// The model of a critical pair.
pub struct SCriticalPair {
    /// The outer rule.
    pub rule_a: Seq<char>,
    /// The inner rule.
    pub rule_b: Seq<char>,
    /// The left reduct.
    pub left: STerm,
    /// The right reduct.
    pub right: STerm,
    /// Whether they join.
    pub joins: bool,
}

impl View for CriticalPair {
    type V = SCriticalPair;

    open spec fn view(&self) -> SCriticalPair {
        SCriticalPair { rule_a: self.rule_a@, rule_b: self.rule_b@, left: self.left@, right: self.right@, joins: self.joins }
    }
}

/// The critical pairs of `r1` over `r2` at the positions of `r1`'s left
/// side from the `k`-th on: where the subterm there unifies with `r2`'s
/// renamed-apart left side (skipping a rule's overlap with itself at the
/// root), the left reduct is `r1`'s right side and the right reduct is
/// `r1`'s left side with `r2`'s right side put at the position, both under
/// the unifier; they join when they normalize (within `depth` steps) to
/// the same term.
pub open spec fn pairs_from(
    r1: SDirectedEquation,
    r2: SDirectedEquation,
    positions: Seq<Seq<usize>>,
    k: int,
    rules: Seq<(STerm, STerm)>,
    depth: nat,
) -> Seq<SCriticalPair>
    decreases (if 0 <= k < positions.len() { positions.len() - k } else { 0 }) as nat,
{
    if 0 <= k < positions.len() {
        let pos = positions[k];
        let rest = pairs_from(r1, r2, positions, k + 1, rules, depth);
        let fm = rule_fresh_map(r2, r1.name);
        match term_at(r1.lhs, pos) {
            None => rest,
            Some(sub) => match unify_spec(sub, subst(r2.lhs, fm)) {
                None => rest,
                Some(sigma) => if pos.len() == 0 && r1.name == r2.name {
                    rest
                } else {
                    let left = subst(r1.rhs, sigma);
                    match replace_at(subst(r1.lhs, sigma), pos, subst(subst(r2.rhs, fm), sigma)) {
                        Err(_) => rest,
                        Ok(right) => seq![
                            SCriticalPair {
                                rule_a: r1.name,
                                rule_b: r2.name,
                                left,
                                right,
                                joins: normalize_spec(left, rules, depth).0 == normalize_spec(right, rules, depth).0,
                            },
                        ] + rest,
                    }
                },
            },
        }
    } else {
        Seq::empty()
    }
}

/// The critical pairs of `r1` over `r2`.
pub open spec fn critical_pairs_of(r1: SDirectedEquation, r2: SDirectedEquation, rules: Seq<(STerm, STerm)>, depth: nat) -> Seq<SCriticalPair> {
    pairs_from(r1, r2, app_positions(r1.lhs, Seq::empty()), 0, rules, depth)
}

/// The critical pairs of every ordered pair of rules, the outer rule
/// varying slowest, from `(i, j)` on.
pub open spec fn all_critical_pairs(ds: Seq<SDirectedEquation>, rules: Seq<(STerm, STerm)>, depth: nat, i: int, j: int) -> Seq<SCriticalPair>
    decreases (if 0 <= i < ds.len() { ds.len() - i } else { 0 }) as nat, (if 0 <= j < ds.len() { ds.len() - j } else { 0 }) as nat,
{
    if 0 <= i < ds.len() {
        if 0 <= j < ds.len() {
            critical_pairs_of(ds[i], ds[j], rules, depth) + all_critical_pairs(ds, rules, depth, i, j + 1)
        } else {
            all_critical_pairs(ds, rules, depth, i + 1, 0)
        }
    } else {
        Seq::empty()
    }
}

fn collect_pairs(
    r1: &DirectedEquation,
    r2: &DirectedEquation,
    rules: &Vec<DirectedEquation>,
    depth: usize,
    out: &mut Vec<CriticalPair>,
)
    ensures
        crate::colimit::views(final(out)@) == crate::colimit::views(old(out)@) + critical_pairs_of(r1@, r2@, rules_view(rules@), depth as nat),
{
    let r2f = freshen_rule(r2, &r1.name);
    let positions = non_variable_positions(&r1.lhs);
    let ghost ps = Seq::new(positions@.len(), |k: int| positions@[k]@);
    let ghost rv = rules_view(rules@);
    let ghost start = crate::colimit::views(out@);
    let mut k: usize = 0;
    while k < positions.len()
        invariant
            ps == Seq::new(positions@.len(), |k: int| positions@[k]@),
            ps == app_positions(r1.lhs@, Seq::empty()),
            rv == rules_view(rules@),
            start == crate::colimit::views(old(out)@),
            r2f.name@ == r2.name@,
            r2f.lhs@ == subst(r2.lhs@, rule_fresh_map(r2@, r1.name@)),
            r2f.rhs@ == subst(r2.rhs@, rule_fresh_map(r2@, r1.name@)),
            k <= positions@.len(),
            start + pairs_from(r1@, r2@, ps, 0, rv, depth as nat) == crate::colimit::views(out@) + pairs_from(r1@, r2@, ps, k as int, rv, depth as nat),
        decreases positions@.len() - k,
    {
        let pos = &positions[k];
        let ghost before = crate::colimit::views(out@);
        let ghost rest = pairs_from(r1@, r2@, ps, k + 1, rv, depth as nat);
        proof {
            assert(ps[k as int] == pos@);
        }
        match term_at_position(&r1.lhs, pos.as_slice()) {
            None => {},
            Some(sub) => match first_order_unify(&sub, &r2f.lhs) {
                None => {},
                Some(sigma) => {
                    if pos.len() == 0 && r1.name == r2.name {
                    } else {
                        let left = r1.rhs.substitute(&sigma);
                        let right_inner = r2f.rhs.substitute(&sigma);
                        let right_whole = r1.lhs.substitute(&sigma);
                        match replace_at_position(&right_whole, pos.as_slice(), right_inner) {
                            Err(_) => {},
                            Ok(right) => {
                                let left_nf = normalize(&left, rules, depth);
                                let right_nf = normalize(&right, rules, depth);
                                let joins = left_nf == right_nf;
                                let cp = CriticalPair { rule_a: r1.name.clone(), rule_b: r2.name.clone(), left, right, joins };
                                let ghost cpv = cp@;
                                let ghost old_v = out@;
                                out.push(cp);
                                proof {
                                    assert(out@ == old_v.push(out@.last()));
                                    assert(crate::colimit::views(out@) =~= before.push(cpv));
                                    assert(before + (seq![cpv] + rest) =~= crate::colimit::views(out@) + rest);
                                }
                            },
                        }
                    }
                },
            },
        }
        k = k + 1;
    }
    proof {
        assert(crate::colimit::views(out@) + Seq::<SCriticalPair>::empty() =~= crate::colimit::views(out@));
    }
}


/// The report of a local-confluence check.
#[derive(Debug)]
pub struct ConfluenceReport {
    /// Every critical pair found, in the order the rules were paired.
    pub critical_pairs: Vec<CriticalPair>,
}

/// Check local confluence of a theory's rewrite rules by critical pairs:
/// for every ordered pair of rules, overlap the second (renamed apart)
/// into each application position of the first's left side, and normalize
/// both reducts within `normalize_depth` steps to see whether they join.
/// Never fails.
pub fn check_local_confluence(theory: &Theory, normalize_depth: usize) -> (r: Result<ConfluenceReport, GatError>)
    ensures
        match r {
            Ok(rep) => crate::colimit::views(rep.critical_pairs@) == all_critical_pairs(
                crate::colimit::views(theory.directed_eqs@),
                rules_view(theory.directed_eqs@),
                normalize_depth as nat,
                0,
                0,
            ),
            Err(_) => false,
        },
{
    let rules = &theory.directed_eqs;
    let ghost ds = crate::colimit::views(rules@);
    let ghost rv = rules_view(rules@);
    let ghost total = all_critical_pairs(ds, rv, normalize_depth as nat, 0, 0);
    let mut out: Vec<CriticalPair> = Vec::new();
    let mut i: usize = 0;
    while i < rules.len()
        invariant
            ds == crate::colimit::views(rules@),
            rv == rules_view(rules@),
            rules == &theory.directed_eqs,
            total == all_critical_pairs(ds, rv, normalize_depth as nat, 0, 0),
            i <= rules@.len(),
            crate::colimit::views(out@) + all_critical_pairs(ds, rv, normalize_depth as nat, i as int, 0) == total,
        decreases rules@.len() - i,
    {
        let mut j: usize = 0;
        while j < rules.len()
            invariant
                ds == crate::colimit::views(rules@),
                rv == rules_view(rules@),
                rules == &theory.directed_eqs,
                total == all_critical_pairs(ds, rv, normalize_depth as nat, 0, 0),
                i < rules@.len(),
                j <= rules@.len(),
                crate::colimit::views(out@) + all_critical_pairs(ds, rv, normalize_depth as nat, i as int, j as int) == total,
            decreases rules@.len() - j,
        {
            let ghost before = crate::colimit::views(out@);
            let ghost rest = all_critical_pairs(ds, rv, normalize_depth as nat, i as int, j + 1);
            collect_pairs(&rules[i], &rules[j], rules, normalize_depth, &mut out);
            proof {
                assert(ds[i as int] == rules@[i as int]@);
                assert(ds[j as int] == rules@[j as int]@);
                let c = critical_pairs_of(ds[i as int], ds[j as int], rv, normalize_depth as nat);
                assert(all_critical_pairs(ds, rv, normalize_depth as nat, i as int, j as int) == c + rest);
                assert(before + (c + rest) =~= (before + c) + rest);
            }
            j = j + 1;
        }
        proof {
            assert(all_critical_pairs(ds, rv, normalize_depth as nat, i as int, j as int)
                == all_critical_pairs(ds, rv, normalize_depth as nat, i + 1, 0));
        }
        i = i + 1;
    }
    proof {
        assert(all_critical_pairs(ds, rv, normalize_depth as nat, i as int, 0) == Seq::<SCriticalPair>::empty());
        assert(crate::colimit::views(out@) + Seq::<SCriticalPair>::empty() =~= crate::colimit::views(out@));
    }
    Ok(ConfluenceReport { critical_pairs: out })
}

/// Whether a critical pair fails to join.
pub open spec fn non_joining_pair(p: SCriticalPair) -> bool {
    !p.joins
}

impl ConfluenceReport {
    /// Whether every critical pair joins.
    pub fn is_locally_confluent(&self) -> (r: bool)
        ensures
            r == forall|i: int| 0 <= i < self.critical_pairs@.len() ==> #[trigger] self.critical_pairs@[i].joins,
    {
        let mut i: usize = 0;
        while i < self.critical_pairs.len()
            invariant
                i <= self.critical_pairs@.len(),
                forall|k: int| 0 <= k < i ==> #[trigger] self.critical_pairs@[k].joins,
            decreases self.critical_pairs@.len() - i,
        {
            if !self.critical_pairs[i].joins {
                return false;
            }
            i = i + 1;
        }
        true
    }

    /// The critical pairs that do not join, in order.
    pub fn non_joining(&self) -> (r: Vec<&CriticalPair>)
        ensures
            crate::colimit::views(r@) == crate::colimit::views(self.critical_pairs@).filter(|p: SCriticalPair| non_joining_pair(p)),
    {
        let ghost all = crate::colimit::views(self.critical_pairs@);
        let ghost pred = |p: SCriticalPair| non_joining_pair(p);
        let mut out: Vec<&CriticalPair> = Vec::new();
        let mut i: usize = 0;
        while i < self.critical_pairs.len()
            invariant
                all == crate::colimit::views(self.critical_pairs@),
                pred == (|p: SCriticalPair| non_joining_pair(p)),
                i <= self.critical_pairs@.len(),
                crate::colimit::views(out@) == all.take(i as int).filter(pred),
            decreases self.critical_pairs@.len() - i,
        {
            let ghost old_out = out@;
            proof {
                assert(all.take(i + 1).drop_last() =~= all.take(i as int));
                assert(all.take(i + 1).last() == self.critical_pairs@[i as int]@);
            }
            proof {
                reveal(Seq::filter);
                let t1 = all.take(i + 1);
                assert(t1.len() > 0);
                assert(t1.filter(pred) == (if pred(t1.last()) {
                    t1.drop_last().filter(pred).push(t1.last())
                } else {
                    t1.drop_last().filter(pred)
                }));
            }
            if !self.critical_pairs[i].joins {
                out.push(&self.critical_pairs[i]);
                proof {
                    assert(crate::colimit::views(out@) =~= crate::colimit::views(old_out).push(self.critical_pairs@[i as int]@));
                }
            }
            i = i + 1;
        }
        proof {
            assert(all.take(all.len() as int) =~= all);
        }
        out
    }
}

/// A rule that fails the termination check.
#[derive(Debug)]
pub struct RuleViolation {
    /// The rule's name.
    pub rule: String,
    /// Why it fails.
    pub reason: String,
}

/// The model of a rule violation.
pub struct SRuleViolation {
    /// The rule's name.
    pub rule: Seq<char>,
    /// Why it fails.
    pub reason: Seq<char>,
}

impl View for RuleViolation {
    type V = SRuleViolation;

    open spec fn view(&self) -> SRuleViolation {
        SRuleViolation { rule: self.rule@, reason: self.reason@ }
    }
}

/// The report of a termination check.
#[derive(Debug)]
pub struct TerminationReport {
    /// The rules whose left side is not greater than their right side.
    pub violations: Vec<RuleViolation>,
}

/// The violation recorded for a rule whose sides are not ordered.
pub open spec fn lpo_violation(r: SDirectedEquation) -> SRuleViolation {
    SRuleViolation {
        rule: r.name,
        reason: "lhs "@ + crate::text::term_text(r.lhs) + " is not >_lpo rhs "@ + crate::text::term_text(r.rhs),
    }
}

/// The termination check over the rules from position `i` on, after
/// the violations `acc`: the first rule with a hole on either side stops
/// it with [`SGatError::LpoHoleInRule`]; otherwise each rule whose left
/// side is not greater than its right side under `order` adds a
/// violation.
pub open spec fn termination_from(
    ds: Seq<SDirectedEquation>,
    order: Seq<Seq<char>>,
    i: int,
    acc: Seq<SRuleViolation>,
) -> Result<Seq<SRuleViolation>, SGatError>
    decreases (if 0 <= i < ds.len() { ds.len() - i } else { 0 }) as nat,
{
    if 0 <= i < ds.len() {
        let r = ds[i];
        if has_hole(r.lhs) || has_hole(r.rhs) {
            Err(SGatError::LpoHoleInRule { rule: r.name })
        } else if lpo(r.lhs, r.rhs, order) {
            termination_from(ds, order, i + 1, acc)
        } else {
            termination_from(ds, order, i + 1, acc.push(lpo_violation(r)))
        }
    } else {
        Ok(acc)
    }
}

/// Check that every rule's left side is greater than its right side in
/// the lexicographic path ordering over `precedence`.
pub fn check_termination_via_lpo(theory: &Theory, precedence: &OpPrecedence) -> (r: Result<TerminationReport, GatError>)
    ensures
        match r {
            Ok(rep) => termination_from(
                crate::colimit::views(theory.directed_eqs@),
                crate::term::names_view(precedence.order@),
                0,
                Seq::empty(),
            ) == Ok::<Seq<SRuleViolation>, SGatError>(crate::colimit::views(rep.violations@)),
            Err(e) => termination_from(
                crate::colimit::views(theory.directed_eqs@),
                crate::term::names_view(precedence.order@),
                0,
                Seq::empty(),
            ) == Err::<Seq<SRuleViolation>, SGatError>(e@),
        },
{
    let rules = &theory.directed_eqs;
    let ghost ds = crate::colimit::views(rules@);
    let ghost order = crate::term::names_view(precedence.order@);
    let ghost total = termination_from(ds, order, 0, Seq::empty());
    let mut violations: Vec<RuleViolation> = Vec::new();
    let mut i: usize = 0;
    proof {
        reveal_strlit("lhs ");
        reveal_strlit(" is not >_lpo rhs ");
        assert(crate::colimit::views(violations@) =~= Seq::<SRuleViolation>::empty());
    }
    while i < rules.len()
        invariant
            ds == crate::colimit::views(rules@),
            order == crate::term::names_view(precedence.order@),
            rules == &theory.directed_eqs,
            total == termination_from(ds, order, 0, Seq::empty()),
            i <= rules@.len(),
            termination_from(ds, order, i as int, crate::colimit::views(violations@)) == total,
        decreases rules@.len() - i,
    {
        let rule = &rules[i];
        proof {
            assert(ds[i as int] == rule@);
        }
        if contains_hole(&rule.lhs) || contains_hole(&rule.rhs) {
            return Err(GatError::LpoHoleInRule { rule: rule.name.clone() });
        }
        if !lpo_greater(&rule.lhs, &rule.rhs, precedence) {
            let mut reason = String::new();
            reason.append("lhs ");
            rule.lhs.write_text(&mut reason);
            reason.append(" is not >_lpo rhs ");
            rule.rhs.write_text(&mut reason);
            let v = RuleViolation { rule: rule.name.clone(), reason };
            let ghost old_v = violations@;
            proof {
                assert(v@ == lpo_violation(rule@));
            }
            violations.push(v);
            proof {
                assert(crate::colimit::views(violations@) =~= crate::colimit::views(old_v).push(lpo_violation(rule@)));
            }
        }
        i = i + 1;
    }
    Ok(TerminationReport { violations })
}

impl TerminationReport {
    /// Whether every rule passed.
    pub fn is_lpo_terminating(&self) -> (r: bool)
        ensures
            r == (self.violations@.len() == 0),
    {
        self.violations.len() == 0
    }
}


/// The combined report on a rewrite system: local confluence and
/// termination.
#[derive(Debug)]
pub struct RewriteSystemReport {
    /// The critical-pair analysis.
    pub confluence: ConfluenceReport,
    /// The termination analysis.
    pub termination: TerminationReport,
}

/// Whether a report shows a locally confluent and terminating system.
pub open spec fn report_sound(rep: RewriteSystemReport) -> bool {
    &&& forall|i: int| 0 <= i < rep.confluence.critical_pairs@.len() ==> #[trigger] rep.confluence.critical_pairs@[i].joins
    &&& rep.termination.violations@.len() == 0
}

/// The warning for a critical pair that does not join.
pub open spec fn pair_warning(p: SCriticalPair) -> Seq<char> {
    "non-joining critical pair between rules `"@ + p.rule_a + "` and `"@ + p.rule_b + "`"@
}

/// The warning for a rule that fails the termination check.
pub open spec fn violation_warning(v: SRuleViolation) -> Seq<char> {
    "rule `"@ + v.rule + "` is not LPO-terminating: "@ + v.reason
}

/// The warnings of a report: one per non-joining critical pair, then one
/// per termination violation.
pub open spec fn report_warnings(rep: RewriteSystemReport) -> Seq<Seq<char>> {
    crate::colimit::views(rep.confluence.critical_pairs@).filter(|p: SCriticalPair| non_joining_pair(p)).map_values(
        |p: SCriticalPair| pair_warning(p),
    ) + crate::colimit::views(rep.termination.violations@).map_values(|v: SRuleViolation| violation_warning(v))
}

impl RewriteSystemReport {
    /// Whether the system is locally confluent and terminating.
    pub fn is_sound(&self) -> (r: bool)
        ensures
            r == report_sound(*self),
    {
        self.confluence.is_locally_confluent() && self.termination.is_lpo_terminating()
    }

    /// A description of each non-joining critical pair, then of each
    /// termination violation.
    pub fn warnings(&self) -> (r: Vec<String>)
        ensures
            crate::colimit::views(r@) == report_warnings(*self),
    {
        proof {
            reveal_strlit("non-joining critical pair between rules `");
            reveal_strlit("` and `");
            reveal_strlit("`");
            reveal_strlit("rule `");
            reveal_strlit("` is not LPO-terminating: ");
        }
        let nj = self.confluence.non_joining();
        let ghost first = crate::colimit::views(self.confluence.critical_pairs@).filter(|p: SCriticalPair| non_joining_pair(p));
        let mut out: Vec<String> = Vec::new();
        let mut i: usize = 0;
        while i < nj.len()
            invariant
                first == crate::colimit::views(nj@),
                i <= nj@.len(),
                out@.len() == i,
                forall|k: int| 0 <= k < i ==> #[trigger] out@[k]@ == pair_warning(first[k]),
            decreases nj@.len() - i,
        {
            let p = nj[i];
            let mut w = String::new();
            w.append("non-joining critical pair between rules `");
            w.append(p.rule_a.as_str());
            w.append("` and `");
            w.append(p.rule_b.as_str());
            w.append("`");
            proof {
                assert(first[i as int] == p@);
                assert(w@ =~= pair_warning(first[i as int]));
            }
            out.push(w);
            i = i + 1;
        }
        let ghost second = crate::colimit::views(self.termination.violations@);
        let mut j: usize = 0;
        while j < self.termination.violations.len()
            invariant
                second == crate::colimit::views(self.termination.violations@),
                first.len() == nj@.len(),
                j <= second.len(),
                out@.len() == nj@.len() + j,
                forall|k: int| 0 <= k < nj@.len() ==> #[trigger] out@[k]@ == pair_warning(first[k]),
                forall|k: int| 0 <= k < j ==> #[trigger] out@[nj@.len() + k]@ == violation_warning(second[k]),
            decreases second.len() - j,
        {
            let v = &self.termination.violations[j];
            let mut w = String::new();
            w.append("rule `");
            w.append(v.rule.as_str());
            w.append("` is not LPO-terminating: ");
            w.append(v.reason.as_str());
            proof {
                assert(second[j as int] == v@);
                assert(w@ =~= violation_warning(second[j as int]));
            }
            out.push(w);
            j = j + 1;
        }
        proof {
            let f = first.map_values(|p: SCriticalPair| pair_warning(p));
            let g = second.map_values(|v: SRuleViolation| violation_warning(v));
            assert forall|k: int| 0 <= k < out@.len() implies #[trigger] crate::colimit::views(out@)[k] == (f + g)[k] by {
                if k < nj@.len() {
                    assert(out@[k]@ == pair_warning(first[k]));
                } else {
                    assert(out@[nj@.len() + (k - nj@.len())]@ == violation_warning(second[k - nj@.len()]));
                }
            }
            assert(crate::colimit::views(out@) =~= f + g);
        }
        out
    }
}

/// A report has no warnings exactly when it shows a sound system.
pub proof fn lemma_warnings_empty_iff_sound(rep: RewriteSystemReport)
    ensures
        (report_warnings(rep).len() == 0) == report_sound(rep),
{
    let all = crate::colimit::views(rep.confluence.critical_pairs@);
    let pred = |p: SCriticalPair| non_joining_pair(p);
    let nj = all.filter(pred);
    if nj.len() == 0 {
        assert forall|i: int| 0 <= i < rep.confluence.critical_pairs@.len() implies #[trigger] rep.confluence.critical_pairs@[i].joins by {
            if !rep.confluence.critical_pairs@[i].joins {
                assert(pred(all[i]));
                all.lemma_filter_contains(pred, i);
            }
        }
    } else {
        lemma_filter_nonempty(all, pred);
        let i = choose|i: int| 0 <= i < all.len() && pred(all[i]);
        assert(!rep.confluence.critical_pairs@[i].joins);
    }
}

proof fn lemma_filter_nonempty<A>(s: Seq<A>, pred: spec_fn(A) -> bool)
    requires
        s.filter(pred).len() > 0,
    ensures
        exists|i: int| 0 <= i < s.len() && pred(s[i]),
    decreases s.len(),
{
    reveal(Seq::filter);
    if s.len() > 0 {
        if pred(s.last()) {
            assert(pred(s[s.len() - 1]));
        } else {
            lemma_filter_nonempty(s.drop_last(), pred);
            let i = choose|i: int| 0 <= i < s.drop_last().len() && pred(s.drop_last()[i]);
            assert(pred(s[i]));
        }
    }
}

/// The operation names of a theory, in declaration order, as a
/// precedence (earlier names rank lower).
fn op_precedence(theory: &Theory) -> (p: OpPrecedence)
    ensures
        crate::term::names_view(p.order@) == crate::theory::op_names(theory.ops@),
{
    let mut order: Vec<String> = Vec::new();
    let mut i: usize = 0;
    while i < theory.ops.len()
        invariant
            i <= theory.ops@.len(),
            order@.len() == i,
            forall|k: int| 0 <= k < i ==> #[trigger] order@[k]@ == theory.ops@[k].name@,
        decreases theory.ops@.len() - i,
    {
        order.push(theory.ops[i].name.clone());
        i = i + 1;
    }
    proof {
        assert(crate::term::names_view(order@) =~= crate::theory::op_names(theory.ops@));
    }
    OpPrecedence { order }
}

/// The step budget of the confluence check run by
/// [`validate_rewrite_system`].
pub const CONFLUENCE_DEPTH: usize = 256;

/// Check a theory's rewrite system for local confluence (within
/// [`CONFLUENCE_DEPTH`] normalization steps) and for termination under the
/// lexicographic path ordering whose precedence is the declaration order
/// of the operations.
pub fn validate_rewrite_system(theory: &Theory) -> (r: Result<RewriteSystemReport, GatError>)
    ensures
        ({
            let ds = crate::colimit::views(theory.directed_eqs@);
            let term = termination_from(ds, crate::theory::op_names(theory.ops@), 0, Seq::empty());
            match r {
                Ok(rep) => crate::colimit::views(rep.confluence.critical_pairs@) == all_critical_pairs(
                    ds,
                    rules_view(theory.directed_eqs@),
                    CONFLUENCE_DEPTH as nat,
                    0,
                    0,
                ) && term == Ok::<Seq<SRuleViolation>, SGatError>(crate::colimit::views(rep.termination.violations@)),
                Err(e) => term == Err::<Seq<SRuleViolation>, SGatError>(e@),
            }
        }),
{
    let confluence = match check_local_confluence(theory, CONFLUENCE_DEPTH) {
        Ok(c) => c,
        Err(e) => {
            return Err(e);
        },
    };
    let precedence = op_precedence(theory);
    let termination = match check_termination_via_lpo(theory, &precedence) {
        Ok(t) => t,
        Err(e) => {
            return Err(e);
        },
    };
    Ok(RewriteSystemReport { confluence, termination })
}

} // verus!
