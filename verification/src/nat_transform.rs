//! Natural transformations between theory morphisms: their check and
//! their vertical and horizontal composition.
use vstd::prelude::*;
use vstd::string::*;

use crate::eq::{is_identity_subst, lemma_subst_identity, rename_ops_spec, subst, subst_fuel};
use crate::error::{GatError, SGatError};
use crate::factorize::{first_missing_exec, op_name_list, sort_name_list};
use crate::maps::{entry_live, map_name, Subst};
use crate::morphism::TheoryMorphism;
use crate::op::{Operation, SOperation};
use crate::schema_functor::{model_op_names, model_sort_names};
use crate::term::{lemma_app_view, lemma_case_view, names_view, opt_name_view, view_branches, view_terms, SBranch, STerm, Term};
use crate::text::{decimal, decimal_string, term_text};
use crate::theory::{STheory, Theory};

verus! {

/// The operations a term applies, and the constructors its case branches
/// name, in order of first appearance from the left.
pub open spec fn term_ops(t: STerm) -> Seq<Seq<char>>
    decreases t, 1nat,
{
    match t {
        STerm::Var(_) => Seq::empty(),
        STerm::Hole { .. } => Seq::empty(),
        STerm::App { op, args } => seq![op] + args_ops(args, 0),
        STerm::Case { scrutinee, branches } => term_ops(*scrutinee) + branches_ops(branches, 0),
        STerm::Let { bound, body, .. } => term_ops(*bound) + term_ops(*body),
    }
}

/// [`term_ops`] of the terms of a list from position `i` on.
pub open spec fn args_ops(a: Seq<STerm>, i: int) -> Seq<Seq<char>>
    decreases a, 0nat, (if 0 <= i < a.len() { a.len() - i } else { 0 }) as nat,
{
    if 0 <= i < a.len() {
        term_ops(a[i]) + args_ops(a, i + 1)
    } else {
        Seq::empty()
    }
}

/// [`term_ops`] of the branches of a list from position `i` on: the
/// constructor, then the body's.
pub open spec fn branches_ops(bs: Seq<SBranch>, i: int) -> Seq<Seq<char>>
    decreases bs, 0nat, (if 0 <= i < bs.len() { bs.len() - i } else { 0 }) as nat,
{
    if 0 <= i < bs.len() {
        seq![bs[i].constructor] + term_ops(bs[i].body) + branches_ops(bs, i + 1)
    } else {
        Seq::empty()
    }
}

/// An element of a concatenation comes from one of its parts.
proof fn lemma_concat_contains(a: Seq<Seq<char>>, b: Seq<Seq<char>>, x: Seq<char>)
    requires
        (a + b).contains(x),
    ensures
        a.contains(x) || b.contains(x),
{
    let i = choose|i: int| 0 <= i < (a + b).len() && (a + b)[i] == x;
    if i < a.len() {
        assert(a[i] == x);
    } else {
        assert(b[i - a.len()] == x);
    }
}

/// An element of a part is an element of the concatenation.
proof fn lemma_contains_concat(a: Seq<Seq<char>>, b: Seq<Seq<char>>, x: Seq<char>)
    requires
        a.contains(x) || b.contains(x),
    ensures
        (a + b).contains(x),
{
    if a.contains(x) {
        let i = choose|i: int| 0 <= i < a.len() && a[i] == x;
        assert((a + b)[i] == x);
    } else {
        let i = choose|i: int| 0 <= i < b.len() && b[i] == x;
        assert((a + b)[i + a.len()] == x);
    }
}

/// Every operation or constructor of a renamed term is the image of one of
/// the original term.
pub proof fn lemma_term_ops_renamed(t: STerm, m: Map<Seq<char>, Seq<char>>, x: Seq<char>)
    requires
        term_ops(rename_ops_spec(t, m)).contains(x),
    ensures
        exists|y: Seq<char>| term_ops(t).contains(y) && map_name(m, y) == x,
    decreases t, 1nat,
{
    match t {
        STerm::App { op, args } => {
            let ra = match rename_ops_spec(t, m) {
                STerm::App { args: ra, .. } => ra,
                _ => Seq::empty(),
            };
            assert(rename_ops_spec(t, m) == STerm::App { op: map_name(m, op), args: ra });
            assert(ra.len() == args.len());
            assert(forall|j: int| 0 <= j < args.len() ==> #[trigger] ra[j] == rename_ops_spec(args[j], m));
            lemma_concat_contains(seq![map_name(m, op)], args_ops(ra, 0), x);
            if x == map_name(m, op) {
                assert(term_ops(t)[0] == op);
            } else {
                assert(seq![map_name(m, op)][0] == map_name(m, op));
                lemma_args_ops_renamed(args, ra, m, 0, x);
                let y = choose|y: Seq<char>| args_ops(args, 0).contains(y) && map_name(m, y) == x;
                lemma_contains_concat(seq![op], args_ops(args, 0), y);
            }
        },
        STerm::Case { scrutinee, branches } => {
            let rb = match rename_ops_spec(t, m) {
                STerm::Case { branches: rb, .. } => rb,
                _ => Seq::empty(),
            };
            assert(rename_ops_spec(t, m) == STerm::Case {
                scrutinee: Box::new(rename_ops_spec(*scrutinee, m)),
                branches: rb,
            });
            assert(rb.len() == branches.len());
            assert(forall|j: int|
                0 <= j < branches.len() ==> (#[trigger] rb[j]).constructor == map_name(m, branches[j].constructor)
                    && rb[j].body == rename_ops_spec(branches[j].body, m));
            lemma_concat_contains(term_ops(rename_ops_spec(*scrutinee, m)), branches_ops(rb, 0), x);
            if term_ops(rename_ops_spec(*scrutinee, m)).contains(x) {
                lemma_term_ops_renamed(*scrutinee, m, x);
                let y = choose|y: Seq<char>| term_ops(*scrutinee).contains(y) && map_name(m, y) == x;
                lemma_contains_concat(term_ops(*scrutinee), branches_ops(branches, 0), y);
            } else {
                lemma_branches_ops_renamed(branches, rb, m, 0, x);
                let y = choose|y: Seq<char>| branches_ops(branches, 0).contains(y) && map_name(m, y) == x;
                lemma_contains_concat(term_ops(*scrutinee), branches_ops(branches, 0), y);
            }
        },
        STerm::Let { name, bound, body } => {
            lemma_concat_contains(term_ops(rename_ops_spec(*bound, m)), term_ops(rename_ops_spec(*body, m)), x);
            if term_ops(rename_ops_spec(*bound, m)).contains(x) {
                lemma_term_ops_renamed(*bound, m, x);
                let y = choose|y: Seq<char>| term_ops(*bound).contains(y) && map_name(m, y) == x;
                lemma_contains_concat(term_ops(*bound), term_ops(*body), y);
            } else {
                lemma_term_ops_renamed(*body, m, x);
                let y = choose|y: Seq<char>| term_ops(*body).contains(y) && map_name(m, y) == x;
                lemma_contains_concat(term_ops(*bound), term_ops(*body), y);
            }
        },
        _ => {},
    }
}

proof fn lemma_args_ops_renamed(a: Seq<STerm>, ra: Seq<STerm>, m: Map<Seq<char>, Seq<char>>, i: int, x: Seq<char>)
    requires
        0 <= i,
        ra.len() == a.len(),
        forall|j: int| 0 <= j < a.len() ==> #[trigger] ra[j] == rename_ops_spec(a[j], m),
        args_ops(ra, i).contains(x),
    ensures
        exists|y: Seq<char>| args_ops(a, i).contains(y) && map_name(m, y) == x,
    decreases a, 0nat, (if 0 <= i < a.len() { a.len() - i } else { 0 }) as nat,
{
    if i < a.len() {
        assert(ra[i] == rename_ops_spec(a[i], m));
        lemma_concat_contains(term_ops(ra[i]), args_ops(ra, i + 1), x);
        if term_ops(ra[i]).contains(x) {
            lemma_term_ops_renamed(a[i], m, x);
            let y = choose|y: Seq<char>| term_ops(a[i]).contains(y) && map_name(m, y) == x;
            lemma_contains_concat(term_ops(a[i]), args_ops(a, i + 1), y);
        } else {
            lemma_args_ops_renamed(a, ra, m, i + 1, x);
            let y = choose|y: Seq<char>| args_ops(a, i + 1).contains(y) && map_name(m, y) == x;
            lemma_contains_concat(term_ops(a[i]), args_ops(a, i + 1), y);
        }
    }
}

proof fn lemma_branches_ops_renamed(bs: Seq<SBranch>, rb: Seq<SBranch>, m: Map<Seq<char>, Seq<char>>, i: int, x: Seq<char>)
    requires
        0 <= i,
        rb.len() == bs.len(),
        forall|j: int|
            0 <= j < bs.len() ==> (#[trigger] rb[j]).constructor == map_name(m, bs[j].constructor) && rb[j].body
                == rename_ops_spec(bs[j].body, m),
        branches_ops(rb, i).contains(x),
    ensures
        exists|y: Seq<char>| branches_ops(bs, i).contains(y) && map_name(m, y) == x,
    decreases bs, 0nat, (if 0 <= i < bs.len() { bs.len() - i } else { 0 }) as nat,
{
    if i < bs.len() {
        let c = rb[i].constructor;
        assert(rb[i].constructor == map_name(m, bs[i].constructor));
        let head = seq![c] + term_ops(rb[i].body);
        assert(branches_ops(rb, i) == head + branches_ops(rb, i + 1));
        let ohead = seq![bs[i].constructor] + term_ops(bs[i].body);
        assert(branches_ops(bs, i) == ohead + branches_ops(bs, i + 1));
        lemma_concat_contains(head, branches_ops(rb, i + 1), x);
        if head.contains(x) {
            lemma_concat_contains(seq![c], term_ops(rb[i].body), x);
            if seq![c].contains(x) {
                assert(seq![c][0] == c);
                assert(x == c);
                assert(ohead[0] == bs[i].constructor);
                lemma_contains_concat(ohead, branches_ops(bs, i + 1), bs[i].constructor);
            } else {
                let bi = bs[i].body;
                lemma_term_ops_renamed(bi, m, x);
                let y = choose|y: Seq<char>| term_ops(bi).contains(y) && map_name(m, y) == x;
                lemma_contains_concat(seq![bs[i].constructor], term_ops(bi), y);
                lemma_contains_concat(ohead, branches_ops(bs, i + 1), y);
            }
        } else {
            lemma_branches_ops_renamed(bs, rb, m, i + 1, x);
            let y = choose|y: Seq<char>| branches_ops(bs, i + 1).contains(y) && map_name(m, y) == x;
            lemma_contains_concat(ohead, branches_ops(bs, i + 1), y);
        }
    }
}

/// Append the operations of a term to `out`.
fn collect_term_ops(t: &Term, out: &mut Vec<String>)
    ensures
        names_view(final(out)@) == names_view(old(out)@) + term_ops(t@),
    decreases t,
{
    let ghost before = names_view(out@);
    match t {
        Term::Var(_) => {
            proof {
                assert(names_view(out@) =~= before + Seq::<Seq<char>>::empty());
            }
        },
        Term::Hole { .. } => {
            proof {
                assert(names_view(out@) =~= before + Seq::<Seq<char>>::empty());
            }
        },
        Term::Let { bound, body, .. } => {
            collect_term_ops(bound, out);
            collect_term_ops(body, out);
            proof {
                assert(names_view(out@) =~= before + (term_ops((**bound)@) + term_ops((**body)@)));
            }
        },
        Term::App { op, args } => {
            proof {
                lemma_app_view(*t);
            }
            out.push(op.clone());
            let ghost a = view_terms(args@);
            proof {
                assert(names_view(out@) =~= before + seq![op@]);
                assert forall|j: int| 0 <= j < args@.len() implies decreases_to!(*t => args@[j]) by {
                    assert(decreases_to!(*t => *args));
                }
            }
            let mut i: usize = 0;
            while i < args.len()
                invariant
                    a == view_terms(args@),
                    t@ is App && t@->args == a && t@->op == op@,
                    forall|j: int| 0 <= j < args@.len() ==> decreases_to!(*t => args@[j]),
                    i <= args@.len(),
                    names_view(out@) + args_ops(a, i as int) == before + seq![op@] + args_ops(a, 0),
                decreases args@.len() - i,
            {
                proof {
                    assert(a[i as int] == args@[i as int]@);
                }
                let ghost mid = names_view(out@);
                collect_term_ops(&args[i], out);
                proof {
                    assert(names_view(out@) + args_ops(a, i + 1) =~= mid + (term_ops(a[i as int]) + args_ops(a, i + 1)));
                }
                i = i + 1;
            }
            proof {
                assert(names_view(out@) + Seq::<Seq<char>>::empty() =~= names_view(out@));
                assert(before + seq![op@] + args_ops(a, 0) =~= before + (seq![op@] + args_ops(a, 0)));
            }
        },
        Term::Case { scrutinee, branches } => {
            proof {
                lemma_case_view(*t);
            }
            collect_term_ops(scrutinee, out);
            let ghost after_s = names_view(out@);
            let ghost bv = view_branches(branches@);
            proof {
                assert forall|j: int| 0 <= j < branches@.len() implies decreases_to!(*t => branches@[j]) by {
                    assert(decreases_to!(*t => *branches));
                }
            }
            let mut i: usize = 0;
            while i < branches.len()
                invariant
                    bv == view_branches(branches@),
                    t@ is Case && t@->branches == bv,
                    forall|j: int| 0 <= j < branches@.len() ==> decreases_to!(*t => branches@[j]),
                    i <= branches@.len(),
                    names_view(out@) + branches_ops(bv, i as int) == after_s + branches_ops(bv, 0),
                decreases branches@.len() - i,
            {
                proof {
                    assert(bv[i as int].body == branches@[i as int].body@);
                    assert(bv[i as int].constructor == branches@[i as int].constructor@);
                }
                let ghost mid = names_view(out@);
                out.push(branches[i].constructor.clone());
                proof {
                    assert(names_view(out@) =~= mid.push(bv[i as int].constructor));
                }
                collect_term_ops(&branches[i].body, out);
                proof {
                    assert(names_view(out@) + branches_ops(bv, i + 1) =~= mid + (seq![bv[i as int].constructor] + term_ops(bv[i as int].body)
                        + branches_ops(bv, i + 1)));
                }
                i = i + 1;
            }
            proof {
                assert(names_view(out@) + Seq::<Seq<char>>::empty() =~= names_view(out@));
                assert(after_s + branches_ops(bv, 0) =~= before + (term_ops((**scrutinee)@) + branches_ops(bv, 0)));
            }
        },
    }
}


/// A natural transformation between morphisms `F, G: T1 → T2`: for each
/// domain sort `S`, a component term in the free variable `x` taking
/// `F(S)` to `G(S)`.
#[derive(Debug)]
pub struct NaturalTransformation {
    /// The transformation's name.
    pub name: String,
    /// The name of the source morphism `F`.
    pub source: String,
    /// The name of the target morphism `G`.
    pub target: String,
    /// The component for each domain sort.
    pub components: Subst,
}

/// The substitution sending `x` to `t`.
pub open spec fn x_to(t: STerm) -> Map<Seq<char>, STerm> {
    Map::empty().insert("x"@, t)
}

fn x_subst(t: Term) -> (r: Subst)
    ensures
        r@ == x_to(t@),
{
    proof {
        reveal_strlit("x");
    }
    let mut s = Subst::new();
    s.insert("x".to_owned(), t);
    s
}

/// The variable standing for input `i` of an operation with `n` inputs:
/// `x` for a unary operation, else `x0`, `x1`, ...
pub open spec fn nat_var(n: nat, i: int) -> Seq<char> {
    if n == 1 {
        "x"@
    } else {
        "x"@ + decimal(i as nat)
    }
}

fn nat_var_exec(n: usize, i: usize) -> (r: String)
    ensures
        r@ == nat_var(n as nat, i as int),
{
    proof {
        reveal_strlit("x");
    }
    let mut s = String::new();
    s.append("x");
    if n != 1 {
        s.append(decimal_string(i).as_str());
    }
    proof {
        if n != 1 {
            assert(s@ =~= "x"@ + decimal(i as nat));
        }
    }
    s
}

/// The left side of the naturality square of `op`: the output
/// component with `x` replaced by `F(op)` applied to the input variables.
pub open spec fn square_lhs(comps: Map<Seq<char>, STerm>, fo: Map<Seq<char>, Seq<char>>, op: SOperation) -> STerm {
    subst(
        comps[op.output.head],
        x_to(
            STerm::App {
                op: map_name(fo, op.name),
                args: Seq::new(op.inputs.len(), |i: int| STerm::Var(nat_var(op.inputs.len(), i))),
            },
        ),
    )
}

/// The arguments of the right side of the naturality square from input
/// `i` on: each input's component with `x` replaced by the input's
/// variable; an input sort without a component is an error.
pub open spec fn square_args_from(comps: Map<Seq<char>, STerm>, op: SOperation, i: int, acc: Seq<STerm>) -> Result<Seq<STerm>, SGatError>
    decreases (if 0 <= i < op.inputs.len() { op.inputs.len() - i } else { 0 }) as nat,
{
    if 0 <= i < op.inputs.len() {
        let h = op.inputs[i].1.head;
        if !comps.contains_key(h) {
            Err(SGatError::MissingNatTransComponent(h))
        } else {
            square_args_from(comps, op, i + 1, acc.push(subst(comps[h], x_to(STerm::Var(nat_var(op.inputs.len(), i))))))
        }
    } else {
        Ok(acc)
    }
}

/// The failure of the naturality square of `op`, if any: a missing
/// output component, then a missing input component, then the two sides
/// differing.
pub open spec fn square_error(comps: Map<Seq<char>, STerm>, fo: Map<Seq<char>, Seq<char>>, go: Map<Seq<char>, Seq<char>>, op: SOperation) -> Option<SGatError> {
    if !comps.contains_key(op.output.head) {
        Some(SGatError::MissingNatTransComponent(op.output.head))
    } else {
        match square_args_from(comps, op, 0, Seq::empty()) {
            Err(e) => Some(e),
            Ok(args) => {
                let lhs = square_lhs(comps, fo, op);
                let rhs = STerm::App { op: map_name(go, op.name), args: args };
                if lhs != rhs {
                    Some(SGatError::NaturalityViolation { op: op.name, lhs: term_text(lhs), rhs: term_text(rhs) })
                } else {
                    None
                }
            },
        }
    }
}

/// The first failing naturality square among the operations from `i` on.
pub open spec fn squares_from(comps: Map<Seq<char>, STerm>, fo: Map<Seq<char>, Seq<char>>, go: Map<Seq<char>, Seq<char>>, ops: Seq<SOperation>, i: int) -> Option<SGatError>
    decreases (if 0 <= i < ops.len() { ops.len() - i } else { 0 }) as nat,
{
    if 0 <= i < ops.len() {
        match square_error(comps, fo, go, ops[i]) {
            Some(e) => Some(e),
            None => squares_from(comps, fo, go, ops, i + 1),
        }
    } else {
        None
    }
}

/// The first of `names` from position `i` on without a component.
pub open spec fn first_absent(names: Seq<Seq<char>>, comps: Map<Seq<char>, STerm>, i: int) -> Option<Seq<char>>
    decreases (if 0 <= i < names.len() { names.len() - i } else { 0 }) as nat,
{
    if 0 <= i < names.len() {
        if !comps.contains_key(names[i]) {
            Some(names[i])
        } else {
            first_absent(names, comps, i + 1)
        }
    } else {
        None
    }
}

/// The error for a component using an operation the codomain lacks.
pub open spec fn invalid_component(sort: Seq<char>, op: Seq<char>) -> SGatError {
    SGatError::NatTransComponentInvalid { sort: sort, detail: "operation "@ + op + " not found in codomain"@ }
}

/// The first live component, from entry `i` on, that uses an operation
/// `cod_ops` lacks (its first such operation).
pub open spec fn invalid_component_from(es: Seq<(String, Term)>, cod_ops: Seq<Seq<char>>, i: int) -> Option<SGatError>
    decreases (if 0 <= i < es.len() { es.len() - i } else { 0 }) as nat,
{
    if 0 <= i < es.len() {
        if entry_live(es, i) && crate::pushout::first_missing(term_ops(es[i].1@), cod_ops, 0) is Some {
            Some(invalid_component(es[i].0@, crate::pushout::first_missing(term_ops(es[i].1@), cod_ops, 0)->Some_0))
        } else {
            invalid_component_from(es, cod_ops, i + 1)
        }
    } else {
        None
    }
}

/// What [`check_natural_transformation`] reports: the morphisms must
/// share domain and codomain names; every domain sort needs a component;
/// every component may use only codomain operations; and every
/// operation's naturality square must commute syntactically.
pub open spec fn nat_check(nt: NaturalTransformation, f: TheoryMorphism, g: TheoryMorphism, d: STheory, c: STheory) -> Option<SGatError> {
    if f.domain@ != g.domain@ || f.codomain@ != g.codomain@ {
        Some(SGatError::NatTransDomainMismatch { source_morphism: f.name@, target_morphism: g.name@ })
    } else {
        match first_absent(model_sort_names(d), nt.components@, 0) {
            Some(n) => Some(SGatError::MissingNatTransComponent(n)),
            None => match invalid_component_from(nt.components.entries@, model_op_names(c), 0) {
                Some(e) => Some(e),
                None => squares_from(nt.components@, f.op_map@, g.op_map@, d.ops, 0),
            },
        }
    }
}

fn first_absent_exec(names: &Vec<String>, comps: &Subst) -> (r: Option<String>)
    ensures
        opt_name_view(r) == first_absent(names_view(names@), comps@, 0),
{
    let ghost nv = names_view(names@);
    let mut i: usize = 0;
    while i < names.len()
        invariant
            nv == names_view(names@),
            i <= nv.len(),
            first_absent(nv, comps@, i as int) == first_absent(nv, comps@, 0),
        decreases nv.len() - i,
    {
        proof {
            assert(nv[i as int] == names[i as int]@);
        }
        if !comps.contains_key(&names[i]) {
            return Some(names[i].clone());
        }
        i = i + 1;
    }
    None
}

fn invalid_component_error(sort: &String, op: &String) -> (e: GatError)
    ensures
        e@ == invalid_component(sort@, op@),
{
    proof {
        reveal_strlit("operation ");
        reveal_strlit(" not found in codomain");
    }
    let mut detail = String::new();
    detail.append("operation ");
    detail.append(op.as_str());
    detail.append(" not found in codomain");
    proof {
        assert(detail@ =~= "operation "@ + op@ + " not found in codomain"@);
    }
    GatError::NatTransComponentInvalid { sort: sort.clone(), detail }
}

fn invalid_component_exec(comps: &Subst, cod_ops: &Vec<String>) -> (r: Option<GatError>)
    ensures
        match r {
            Some(e) => invalid_component_from(comps.entries@, names_view(cod_ops@), 0) == Some(e@),
            None => invalid_component_from(comps.entries@, names_view(cod_ops@), 0) is None,
        },
{
    let ghost es = comps.entries@;
    let ghost co = names_view(cod_ops@);
    let mut i: usize = 0;
    while i < comps.entries.len()
        invariant
            es == comps.entries@,
            co == names_view(cod_ops@),
            i <= es.len(),
            invalid_component_from(es, co, i as int) == invalid_component_from(es, co, 0),
        decreases es.len() - i,
    {
        if comps.is_live(i) {
            let mut ops: Vec<String> = Vec::new();
            collect_term_ops(&comps.entries[i].1, &mut ops);
            proof {
                assert(names_view(ops@) =~= term_ops(es[i as int].1@));
            }
            if let Some(op) = first_missing_exec(&ops, cod_ops) {
                return Some(invalid_component_error(&comps.entries[i].0, &op));
            }
        }
        i = i + 1;
    }
    None
}

fn square_check(comps: &Subst, f: &TheoryMorphism, g: &TheoryMorphism, op: &Operation) -> (r: Option<GatError>)
    ensures
        match r {
            Some(e) => square_error(comps@, f.op_map@, g.op_map@, op@) == Some(e@),
            None => square_error(comps@, f.op_map@, g.op_map@, op@) is None,
        },
{
    let ghost o = op@;
    let out = op.output.head();
    let alpha_out = match comps.get(out) {
        Some(t) => t,
        None => {
            return Some(GatError::MissingNatTransComponent(out.clone()));
        },
    };
    let f_op = f.op_map.lookup_or_same(&op.name);
    let g_op = g.op_map.lookup_or_same(&op.name);
    let n = op.inputs.len();
    let ghost nn = o.inputs.len();
    let mut vars: Vec<Term> = Vec::new();
    let mut i: usize = 0;
    while i < n
        invariant
            n == nn,
            i <= n,
            vars@.len() == i,
            forall|j: int| 0 <= j < i ==> #[trigger] vars@[j]@ == STerm::Var(nat_var(nn, j)),
        decreases n - i,
    {
        vars.push(Term::Var(nat_var_exec(n, i)));
        i = i + 1;
    }
    let app = Term::App { op: f_op, args: vars };
    proof {
        lemma_app_view(app);
        assert(view_terms(vars@) =~= Seq::new(nn, |j: int| STerm::Var(nat_var(nn, j))));
    }
    let lhs = alpha_out.substitute(&x_subst(app));
    let mut rhs_args: Vec<Term> = Vec::new();
    proof {
        assert(view_terms(rhs_args@) =~= Seq::<STerm>::empty());
    }
    let mut i: usize = 0;
    while i < n
        invariant
            o == op@,
            n == nn,
            nn == o.inputs.len(),
            comps@.contains_key(o.output.head),
            i <= n,
            rhs_args@.len() == i,
            square_args_from(comps@, o, i as int, view_terms(rhs_args@)) == square_args_from(comps@, o, 0, Seq::empty()),
        decreases n - i,
    {
        let h = op.inputs[i].1.head();
        proof {
            assert(o.inputs[i as int].1.head == h@);
        }
        match comps.get(h) {
            None => {
                return Some(GatError::MissingNatTransComponent(h.clone()));
            },
            Some(c) => {
                let ghost before = view_terms(rhs_args@);
                let v = Term::Var(nat_var_exec(n, i));
                let a = c.substitute(&x_subst(v));
                rhs_args.push(a);
                proof {
                    assert(view_terms(rhs_args@) =~= before.push(a@));
                }
            },
        }
        i = i + 1;
    }
    let rhs = Term::App { op: g_op, args: rhs_args };
    proof {
        lemma_app_view(rhs);
        assert(view_terms(Seq::<Term>::empty()) =~= Seq::<STerm>::empty());
    }
    if lhs != rhs {
        Some(GatError::NaturalityViolation { op: op.name.clone(), lhs: lhs.to_string(), rhs: rhs.to_string() })
    } else {
        None
    }
}

fn squares_exec(comps: &Subst, f: &TheoryMorphism, g: &TheoryMorphism, domain: &Theory) -> (r: Option<GatError>)
    ensures
        match r {
            Some(e) => squares_from(comps@, f.op_map@, g.op_map@, domain@.ops, 0) == Some(e@),
            None => squares_from(comps@, f.op_map@, g.op_map@, domain@.ops, 0) is None,
        },
{
    let ghost ops = domain@.ops;
    let mut i: usize = 0;
    while i < domain.ops.len()
        invariant
            ops == domain@.ops,
            i <= ops.len(),
            squares_from(comps@, f.op_map@, g.op_map@, ops, i as int) == squares_from(comps@, f.op_map@, g.op_map@, ops, 0),
        decreases ops.len() - i,
    {
        let r = square_check(comps, f, g, &domain.ops[i]);
        if r.is_some() {
            return r;
        }
        i = i + 1;
    }
    None
}

/// Check that a natural transformation `nt: F ⇒ G` is valid: `F` and `G`
/// share domain and codomain, every domain sort has a component, every
/// component uses only codomain operations, and every operation's
/// naturality square commutes syntactically. The first violation found
/// is returned.
pub fn check_natural_transformation(
    nt: &NaturalTransformation,
    f: &TheoryMorphism,
    g: &TheoryMorphism,
    domain: &Theory,
    codomain: &Theory,
) -> (r: Result<(), GatError>)
    ensures
        match r {
            Ok(()) => nat_check(*nt, *f, *g, domain@, codomain@) is None,
            Err(e) => nat_check(*nt, *f, *g, domain@, codomain@) == Some(e@),
        },
{
    if f.domain != g.domain || f.codomain != g.codomain {
        return Err(GatError::NatTransDomainMismatch { source_morphism: f.name.clone(), target_morphism: g.name.clone() });
    }
    let sorts = sort_name_list(domain);
    if let Some(n) = first_absent_exec(&sorts, &nt.components) {
        return Err(GatError::MissingNatTransComponent(n));
    }
    let cod_ops = op_name_list(codomain);
    if let Some(e) = invalid_component_exec(&nt.components, &cod_ops) {
        return Err(e);
    }
    match squares_exec(&nt.components, f, g, domain) {
        Some(e) => Err(e),
        None => Ok(()),
    }
}

/// The first of `names` from position `i` on that lacks a component in
/// `a` or in `b`.
pub open spec fn first_absent_in_either(names: Seq<Seq<char>>, a: Map<Seq<char>, STerm>, b: Map<Seq<char>, STerm>, i: int) -> Option<Seq<char>>
    decreases (if 0 <= i < names.len() { names.len() - i } else { 0 }) as nat,
{
    if 0 <= i < names.len() {
        if !a.contains_key(names[i]) || !b.contains_key(names[i]) {
            Some(names[i])
        } else {
            first_absent_in_either(names, a, b, i + 1)
        }
    } else {
        None
    }
}

/// The components of `β · α` on the sorts `names`: `β_S[x := α_S]`.
pub open spec fn vertical_components(names: Seq<Seq<char>>, a: Map<Seq<char>, STerm>, b: Map<Seq<char>, STerm>) -> Map<Seq<char>, STerm> {
    Map::new(|k: Seq<char>| names.contains(k), |k: Seq<char>| subst(b[k], x_to(a[k])))
}

/// What [`vertical_compose`] gives: an error when `α`'s target is not
/// `β`'s source or a domain sort lacks a component in either, else the
/// composite's components.
pub open spec fn vertical_outcome(alpha: NaturalTransformation, beta: NaturalTransformation, d: STheory) -> Result<Map<Seq<char>, STerm>, SGatError> {
    if alpha.target@ != beta.source@ {
        Err(SGatError::NatTransComposeMismatch { alpha_target: alpha.target@, beta_source: beta.source@ })
    } else {
        match first_absent_in_either(model_sort_names(d), alpha.components@, beta.components@, 0) {
            Some(n) => Err(SGatError::MissingNatTransComponent(n)),
            None => Ok(vertical_components(model_sort_names(d), alpha.components@, beta.components@)),
        }
    }
}

fn joined(a: &String, sep: &str, b: &String) -> (r: String)
    ensures
        r@ == a@ + sep@ + b@,
{
    let mut s = a.clone();
    s.append(sep);
    s.append(b.as_str());
    s
}

/// Vertical composition `β · α: F ⇒ H` of `α: F ⇒ G` and `β: G ⇒ H`,
/// with component `β_S[x := α_S]` at each domain sort `S`, named
/// `β.α`.
pub fn vertical_compose(alpha: &NaturalTransformation, beta: &NaturalTransformation, domain: &Theory) -> (r: Result<NaturalTransformation, GatError>)
    ensures
        match r {
            Ok(nt) => {
                &&& vertical_outcome(*alpha, *beta, domain@) == Ok::<Map<Seq<char>, STerm>, SGatError>(nt.components@)
                &&& nt.name@ == beta.name@ + "."@ + alpha.name@
                &&& nt.source@ == alpha.source@
                &&& nt.target@ == beta.target@
            },
            Err(e) => vertical_outcome(*alpha, *beta, domain@) == Err::<Map<Seq<char>, STerm>, SGatError>(e@),
        },
{
    if alpha.target != beta.source {
        return Err(GatError::NatTransComposeMismatch { alpha_target: alpha.target.clone(), beta_source: beta.source.clone() });
    }
    let ghost names = model_sort_names(domain@);
    let ghost a = alpha.components@;
    let ghost b = beta.components@;
    let mut comps = Subst::new();
    let mut i: usize = 0;
    while i < domain.sorts.len()
        invariant
            names == model_sort_names(domain@),
            a == alpha.components@,
            b == beta.components@,
            alpha.target@ == beta.source@,
            i <= names.len(),
            first_absent_in_either(names, a, b, i as int) == first_absent_in_either(names, a, b, 0),
            comps@ == vertical_components(names.take(i as int), a, b),
        decreases names.len() - i,
    {
        let s = &domain.sorts[i].name;
        proof {
            assert(names[i as int] == s@);
        }
        let alpha_s = match alpha.components.get(s) {
            Some(t) => t,
            None => {
                return Err(GatError::MissingNatTransComponent(s.clone()));
            },
        };
        let beta_s = match beta.components.get(s) {
            Some(t) => t,
            None => {
                return Err(GatError::MissingNatTransComponent(s.clone()));
            },
        };
        let composed = beta_s.substitute(&x_subst(alpha_s.deep_copy()));
        let ghost before = comps@;
        comps.insert(s.clone(), composed);
        proof {
            let t0 = names.take(i as int);
            let t1 = names.take(i + 1);
            assert(t1 =~= t0.push(s@));
            assert(composed@ == subst(b[s@], x_to(a[s@])));
            assert forall|k: Seq<char>| #[trigger] t1.contains(k) <==> (t0.contains(k) || k == s@) by {
                if t1.contains(k) && k != s@ {
                    let j = choose|j: int| 0 <= j < t1.len() && t1[j] == k;
                    assert(t0[j] == k);
                }
                if t0.contains(k) {
                    let j = choose|j: int| 0 <= j < t0.len() && t0[j] == k;
                    assert(t1[j] == k);
                }
                if k == s@ {
                    assert(t1[i as int] == k);
                }
            }
            assert(comps@ =~= vertical_components(t1, a, b));
        }
        i = i + 1;
    }
    proof {
        assert(names.take(i as int) =~= names);
    }
    proof {
        reveal_strlit(".");
    }
    Ok(NaturalTransformation {
        name: joined(&beta.name, ".", &alpha.name),
        source: alpha.source.clone(),
        target: beta.target.clone(),
        components: comps,
    })
}

/// The first failure of horizontal composition among the sorts `names`
/// from position `i` on: a sort `S` that `G` does not map, a missing
/// `β_{G(S)}`, or a missing `α_S`, checked in that order.
pub open spec fn horizontal_error(
    names: Seq<Seq<char>>,
    gm: Map<Seq<char>, Seq<char>>,
    a: Map<Seq<char>, STerm>,
    b: Map<Seq<char>, STerm>,
    i: int,
) -> Option<SGatError>
    decreases (if 0 <= i < names.len() { names.len() - i } else { 0 }) as nat,
{
    if 0 <= i < names.len() {
        let s = names[i];
        if !gm.contains_key(s) {
            Some(SGatError::MissingSortMapping(s))
        } else if !b.contains_key(gm[s]) {
            Some(SGatError::MissingNatTransComponent(gm[s]))
        } else if !a.contains_key(s) {
            Some(SGatError::MissingNatTransComponent(s))
        } else {
            horizontal_error(names, gm, a, b, i + 1)
        }
    } else {
        None
    }
}

/// The components of `β ∗ α` on the sorts `names`:
/// `β_{G(S)}[x := H(α_S)]`, where `H` renames operations by `hm`.
pub open spec fn horizontal_components(
    names: Seq<Seq<char>>,
    gm: Map<Seq<char>, Seq<char>>,
    hm: Map<Seq<char>, Seq<char>>,
    a: Map<Seq<char>, STerm>,
    b: Map<Seq<char>, STerm>,
) -> Map<Seq<char>, STerm> {
    Map::new(|k: Seq<char>| names.contains(k), |k: Seq<char>| subst(b[gm[k]], x_to(rename_ops_spec(a[k], hm))))
}

/// What [`horizontal_compose`] gives: the first failure over the domain
/// sorts, else the composite's components.
pub open spec fn horizontal_outcome(
    alpha: NaturalTransformation,
    beta: NaturalTransformation,
    g: TheoryMorphism,
    h: TheoryMorphism,
    d: STheory,
) -> Result<Map<Seq<char>, STerm>, SGatError> {
    match horizontal_error(model_sort_names(d), g.sort_map@, alpha.components@, beta.components@, 0) {
        Some(e) => Err(e),
        None => Ok(
            horizontal_components(model_sort_names(d), g.sort_map@, h.op_map@, alpha.components@, beta.components@),
        ),
    }
}

/// Horizontal composition `β ∗ α: H∘F ⇒ K∘G` of `α: F ⇒ G` and
/// `β: H ⇒ K`, with component `β_{G(S)}[x := H(α_S)]` at each domain
/// sort `S`. `_f` is not consulted.
pub fn horizontal_compose(
    alpha: &NaturalTransformation,
    beta: &NaturalTransformation,
    _f: &TheoryMorphism,
    g: &TheoryMorphism,
    h: &TheoryMorphism,
    domain: &Theory,
) -> (r: Result<NaturalTransformation, GatError>)
    ensures
        match r {
            Ok(nt) => {
                &&& horizontal_outcome(*alpha, *beta, *g, *h, domain@) == Ok::<Map<Seq<char>, STerm>, SGatError>(nt.components@)
                &&& nt.name@ == beta.name@ + "*"@ + alpha.name@
                &&& nt.source@ == beta.source@ + "."@ + alpha.source@
                &&& nt.target@ == beta.target@ + "."@ + alpha.target@
            },
            Err(e) => horizontal_outcome(*alpha, *beta, *g, *h, domain@) == Err::<Map<Seq<char>, STerm>, SGatError>(e@),
        },
{
    let ghost names = model_sort_names(domain@);
    let ghost gm = g.sort_map@;
    let ghost hm = h.op_map@;
    let ghost a = alpha.components@;
    let ghost b = beta.components@;
    let mut comps = Subst::new();
    let mut i: usize = 0;
    while i < domain.sorts.len()
        invariant
            names == model_sort_names(domain@),
            gm == g.sort_map@,
            hm == h.op_map@,
            a == alpha.components@,
            b == beta.components@,
            i <= names.len(),
            horizontal_error(names, gm, a, b, i as int) == horizontal_error(names, gm, a, b, 0),
            comps@ == horizontal_components(names.take(i as int), gm, hm, a, b),
        decreases names.len() - i,
    {
        let s = &domain.sorts[i].name;
        proof {
            assert(names[i as int] == s@);
        }
        let g_s = match g.sort_map.get(s) {
            Some(t) => t,
            None => {
                return Err(GatError::MissingSortMapping(s.clone()));
            },
        };
        let beta_gs = match beta.components.get(g_s) {
            Some(t) => t,
            None => {
                return Err(GatError::MissingNatTransComponent(g_s.clone()));
            },
        };
        let alpha_s = match alpha.components.get(s) {
            Some(t) => t,
            None => {
                return Err(GatError::MissingNatTransComponent(s.clone()));
            },
        };
        let h_alpha_s = h.apply_to_term(alpha_s);
        let composed = beta_gs.substitute(&x_subst(h_alpha_s));
        comps.insert(s.clone(), composed);
        proof {
            let t0 = names.take(i as int);
            let t1 = names.take(i + 1);
            assert(t1 =~= t0.push(s@));
            assert(composed@ == subst(b[gm[s@]], x_to(rename_ops_spec(a[s@], hm))));
            assert forall|k: Seq<char>| #[trigger] t1.contains(k) <==> (t0.contains(k) || k == s@) by {
                if t1.contains(k) && k != s@ {
                    let j = choose|j: int| 0 <= j < t1.len() && t1[j] == k;
                    assert(t0[j] == k);
                }
                if t0.contains(k) {
                    let j = choose|j: int| 0 <= j < t0.len() && t0[j] == k;
                    assert(t1[j] == k);
                }
                if k == s@ {
                    assert(t1[i as int] == k);
                }
            }
            assert(comps@ =~= horizontal_components(t1, gm, hm, a, b));
        }
        i = i + 1;
    }
    proof {
        assert(names.take(i as int) =~= names);
        reveal_strlit(".");
        reveal_strlit("*");
    }
    Ok(NaturalTransformation {
        name: joined(&beta.name, "*", &alpha.name),
        source: joined(&beta.source, ".", &alpha.source),
        target: joined(&beta.target, ".", &alpha.target),
        components: comps,
    })
}

/// The components of a transformation on the sorts `names`.
pub open spec fn components_on(names: Seq<Seq<char>>, c: Map<Seq<char>, STerm>) -> Map<Seq<char>, STerm> {
    Map::new(|k: Seq<char>| names.contains(k), |k: Seq<char>| c[k])
}

/// Every one of `names` has the component `x`.
pub open spec fn is_identity_on(names: Seq<Seq<char>>, c: Map<Seq<char>, STerm>) -> bool {
    forall|k: Seq<char>| #[trigger] names.contains(k) ==> c.contains_key(k) && c[k] == STerm::Var("x"@)
}

proof fn lemma_first_absent_none(names: Seq<Seq<char>>, a: Map<Seq<char>, STerm>, b: Map<Seq<char>, STerm>, i: int)
    requires
        0 <= i,
        forall|k: Seq<char>| #[trigger] names.contains(k) ==> a.contains_key(k) && b.contains_key(k),
    ensures
        first_absent_in_either(names, a, b, i) is None,
    decreases (if i < names.len() { names.len() - i } else { 0 }) as nat,
{
    if i < names.len() {
        assert(names.contains(names[i]));
        lemma_first_absent_none(names, a, b, i + 1);
    }
}

/// The identity transformation, whose every component is the variable
/// `x`, is a unit of vertical composition on both sides: composed after
/// or before a transformation with a component at every domain sort, it
/// gives that transformation's components back.
pub proof fn lemma_vertical_identity(id: NaturalTransformation, nt: NaturalTransformation, d: STheory)
    requires
        is_identity_on(model_sort_names(d), id.components@),
        forall|k: Seq<char>| #[trigger] model_sort_names(d).contains(k) ==> nt.components@.contains_key(k),
    ensures
        id.target@ == nt.source@ ==> vertical_outcome(id, nt, d) == Ok::<Map<Seq<char>, STerm>, SGatError>(
            components_on(model_sort_names(d), nt.components@),
        ),
        nt.target@ == id.source@ ==> vertical_outcome(nt, id, d) == Ok::<Map<Seq<char>, STerm>, SGatError>(
            components_on(model_sort_names(d), nt.components@),
        ),
{
    let names = model_sort_names(d);
    let a = id.components@;
    let c = nt.components@;
    lemma_first_absent_none(names, a, c, 0);
    lemma_first_absent_none(names, c, a, 0);
    assert forall|k: Seq<char>| names.contains(k) implies #[trigger] subst(c[k], x_to(a[k])) == c[k] by {
        assert(is_identity_subst(x_to(a[k])));
        lemma_subst_identity(c[k], x_to(a[k]));
    }
    assert forall|k: Seq<char>| names.contains(k) implies #[trigger] subst(a[k], x_to(c[k])) == c[k] by {
        assert(subst(a[k], x_to(c[k])) == subst_fuel(STerm::Var("x"@), x_to(c[k]), 1));
    }
    assert(vertical_components(names, a, c) =~= components_on(names, c));
    assert(vertical_components(names, c, a) =~= components_on(names, c));
}

} // verus!
