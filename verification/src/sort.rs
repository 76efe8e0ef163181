//! Sorts, sort expressions, value kinds and coercion classes.
use vstd::prelude::*;
use vstd::std_specs::cmp::{PartialEqSpecImpl, PartialOrdSpecImpl};
use vstd::std_specs::convert::FromSpecImpl;
use core::cmp::Ordering;

use crate::eq::{DirectedEquation, rename_ops_spec, rules_view, subst};
use crate::normalize::{normalize_spec, normalize_with_status};
use crate::maps::{RenameMap, Subst, map_name};
use crate::op::{Implicit, inputs_view};
use crate::term::{STerm, Term, copy_terms, term_lists_eq, view_terms};

verus! {

/// A sort expression: a sort name, possibly applied to argument terms.
///
/// A normalized value never uses `App` with an empty argument list; the
/// two spellings of a bare name are equal under `==` either way.
#[derive(Debug)]
pub enum SortExpr {
    /// A bare sort name.
    Name(String),
    /// A dependent sort applied to argument terms.
    App {
        /// The sort's name.
        name: String,
        /// The argument terms.
        args: Vec<Term>,
    },
}

/// The model of a sort expression: its head and its argument terms.
pub struct SSortExpr {
    /// The sort name.
    pub head: Seq<char>,
    /// The argument terms.
    pub args: Seq<STerm>,
}

impl View for SortExpr {
    type V = SSortExpr;

    open spec fn view(&self) -> SSortExpr {
        match self {
            SortExpr::Name(n) => SSortExpr { head: n@, args: Seq::empty() },
            SortExpr::App { name, args } => SSortExpr { head: name@, args: view_terms(args@) },
        }
    }
}

/// Substitution applied to every argument of a sort expression model.
pub open spec fn subst_sort(e: SSortExpr, s: Map<Seq<char>, STerm>) -> SSortExpr {
    SSortExpr { head: e.head, args: Seq::new(e.args.len(), |i: int| subst(e.args[i], s)) }
}

impl SortExpr {
    /// `App` is used only with a non-empty argument list.
    pub open spec fn is_normal(&self) -> bool {
        match self {
            SortExpr::App { args, .. } => args@.len() > 0,
            SortExpr::Name(_) => true,
        }
    }

    /// A bare sort name.
    pub fn name(n: &str) -> (r: SortExpr)
        ensures
            r@ == (SSortExpr { head: n@, args: Seq::empty() }),
            r is Name,
    {
        SortExpr::Name(n.to_owned())
    }

    /// Smart constructor: `Name` for an empty argument list, `App`
    /// otherwise.
    pub fn app(name: &str, args: Vec<Term>) -> (r: SortExpr)
        ensures
            r@ == (SSortExpr { head: name@, args: view_terms(args@) }),
            r.is_normal(),
            (r is Name) == (args@.len() == 0),
    {
        if args.len() == 0 {
            proof {
                assert(view_terms(args@) =~= Seq::<STerm>::empty());
            }
            SortExpr::Name(name.to_owned())
        } else {
            SortExpr::App { name: name.to_owned(), args }
        }
    }

    /// Collapse `App` with no arguments into `Name`; other values are
    /// returned unchanged.
    pub fn normalize(self) -> (r: SortExpr)
        ensures
            r@ == self@,
            r.is_normal(),
            self.is_normal() ==> r == self,
    {
        match self {
            SortExpr::App { name, args } => {
                if args.len() == 0 {
                    proof {
                        assert(view_terms(args@) =~= Seq::<STerm>::empty());
                    }
                    SortExpr::Name(name)
                } else {
                    SortExpr::App { name, args }
                }
            },
            SortExpr::Name(n) => SortExpr::Name(n),
        }
    }

    /// The sort name, ignoring arguments.
    pub fn head(&self) -> (r: &String)
        ensures
            r@ == self@.head,
    {
        match self {
            SortExpr::Name(n) => n,
            SortExpr::App { name, .. } => name,
        }
    }

    /// The argument terms (none for a bare name).
    pub fn args(&self) -> (r: Vec<Term>)
        ensures
            view_terms(r@) == self@.args,
    {
        match self {
            SortExpr::Name(_) => {
                let v: Vec<Term> = Vec::new();
                assert(view_terms(v@) =~= Seq::<STerm>::empty());
                v
            },
            SortExpr::App { args, .. } => copy_terms(args),
        }
    }

    /// A structural copy.
    pub fn copy(&self) -> (r: SortExpr)
        ensures
            r@ == self@,
            self.is_normal() ==> r.is_normal(),
            (r is Name) == (self is Name),
    {
        match self {
            SortExpr::Name(n) => SortExpr::Name(n.clone()),
            SortExpr::App { name, args } => SortExpr::App { name: name.clone(), args: copy_terms(args) },
        }
    }

    /// Substitute `mapping` into every argument term.
    pub fn subst(&self, mapping: &Subst) -> (r: SortExpr)
        ensures
            r@ == subst_sort(self@, mapping@),
            r.is_normal(),
    {
        match self {
            SortExpr::Name(n) => {
                let r = SortExpr::Name(n.clone());
                assert(r@.args =~= subst_sort(self@, mapping@).args);
                r
            },
            SortExpr::App { name, args } => {
                let mut out: Vec<Term> = Vec::new();
                let mut i: usize = 0;
                while i < args.len()
                    invariant
                        i <= args@.len(),
                        out@.len() == i,
                        forall|j: int| 0 <= j < i ==> #[trigger] out@[j]@ == subst(args@[j]@, mapping@),
                    decreases args@.len() - i,
                {
                    out.push(args[i].substitute(mapping));
                    i = i + 1;
                }
                let r = SortExpr::app(name.as_str(), out);
                assert(r@.args =~= subst_sort(self@, mapping@).args);
                r
            },
        }
    }

    /// Equality of heads and argument lists, treating a bare name and an
    /// empty application alike.
    pub fn alpha_eq(&self, other: &SortExpr) -> (r: bool)
        ensures
            r == (self@ == other@),
    {
        let a = self.args();
        let b = other.args();
        *self.head() == *other.head() && term_lists_eq(&a, &b)
    }

    /// Rename the head through `sort_map`, keeping the arguments.
    pub fn rename_head(&self, sort_map: &RenameMap) -> (r: SortExpr)
        ensures
            r@ == (SSortExpr { head: map_name(sort_map@, self@.head), args: self@.args }),
            r.is_normal(),
    {
        match self {
            SortExpr::Name(n) => SortExpr::Name(sort_map.lookup_or_same(n)),
            SortExpr::App { name, args } => {
                let h = sort_map.lookup_or_same(name);
                SortExpr::app(h.as_str(), copy_terms(args))
            },
        }
    }

    /// Rename the head through `sort_map` and the operations of every
    /// argument through `op_map`.
    pub fn apply_maps(&self, sort_map: &RenameMap, op_map: &RenameMap) -> (r: SortExpr)
        ensures
            r@ == (SSortExpr {
                head: map_name(sort_map@, self@.head),
                args: Seq::new(self@.args.len(), |i: int| rename_ops_spec(self@.args[i], op_map@)),
            }),
            r.is_normal(),
    {
        match self {
            SortExpr::Name(n) => {
                let r = SortExpr::Name(sort_map.lookup_or_same(n));
                assert(r@.args =~= Seq::new(self@.args.len(), |i: int| rename_ops_spec(self@.args[i], op_map@)));
                r
            },
            SortExpr::App { name, args } => {
                let h = sort_map.lookup_or_same(name);
                let mut out: Vec<Term> = Vec::new();
                let mut i: usize = 0;
                while i < args.len()
                    invariant
                        i <= args@.len(),
                        out@.len() == i,
                        forall|j: int| 0 <= j < i ==> #[trigger] out@[j]@ == rename_ops_spec(args@[j]@, op_map@),
                    decreases args@.len() - i,
                {
                    out.push(args[i].rename_ops(op_map));
                    i = i + 1;
                }
                let r = SortExpr::app(h.as_str(), out);
                assert(r@.args =~= Seq::new(self@.args.len(), |i: int| rename_ops_spec(self@.args[i], op_map@)));
                r
            },
        }
    }
}

/// The normal forms of a list of terms, with their exhaustion flags.
pub open spec fn normalize_all(ts: Seq<STerm>, rules: Seq<(STerm, STerm)>, limit: nat) -> Seq<(STerm, bool)> {
    Seq::new(ts.len(), |i: int| normalize_spec(ts[i], rules, limit))
}

/// Equality of two sort expressions after normalizing every argument:
/// the verdict, and whether any normalization ran out of steps. Different
/// heads or argument counts are unequal without normalizing.
pub open spec fn modulo_rewrites_status(a: SSortExpr, b: SSortExpr, rules: Seq<(STerm, STerm)>, limit: nat) -> (bool, bool) {
    if a.head != b.head || a.args.len() != b.args.len() {
        (false, false)
    } else {
        let l = normalize_all(a.args, rules, limit);
        let r = normalize_all(b.args, rules, limit);
        (
            Seq::new(l.len(), |i: int| l[i].0) == Seq::new(r.len(), |i: int| r[i].0),
            (exists|i: int| 0 <= i < l.len() && (#[trigger] l[i]).1) || (exists|i: int| 0 <= i < r.len() && (#[trigger] r[i]).1),
        )
    }
}

/// Normalize every term of a list, recording whether any normalization
/// ran out of steps.
fn normalize_terms(ts: &Vec<Term>, rules: &Vec<DirectedEquation>, limit: usize) -> (r: (Vec<Term>, bool))
    ensures
        r.0@.len() == ts@.len(),
        forall|i: int| 0 <= i < ts@.len() ==> #[trigger] r.0@[i]@ == normalize_all(view_terms(ts@), rules_view(rules@), limit as nat)[i].0,
        r.1 == exists|i: int| 0 <= i < ts@.len() && (#[trigger] normalize_all(view_terms(ts@), rules_view(rules@), limit as nat)[i]).1,
{
    let ghost n = normalize_all(view_terms(ts@), rules_view(rules@), limit as nat);
    let mut out: Vec<Term> = Vec::new();
    let mut ex = false;
    let mut i: usize = 0;
    while i < ts.len()
        invariant
            n == normalize_all(view_terms(ts@), rules_view(rules@), limit as nat),
            i <= ts@.len(),
            out@.len() == i,
            forall|j: int| 0 <= j < i ==> #[trigger] out@[j]@ == n[j].0,
            ex == exists|j: int| 0 <= j < i && (#[trigger] n[j]).1,
        decreases ts@.len() - i,
    {
        let (t, e) = normalize_with_status(&ts[i], rules, limit);
        proof {
            assert(n[i as int] == (t@, e));
            if ex && !e {
                let j = choose|j: int| 0 <= j < i && (#[trigger] n[j]).1;
                assert(0 <= j < i + 1 && n[j].1);
            }
            if !ex && !e {
                assert forall|j: int| 0 <= j < i + 1 implies !(#[trigger] n[j]).1 by {
                    if j < i {
                    }
                }
            }
        }
        out.push(t);
        ex = ex || e;
        i = i + 1;
    }
    (out, ex)
}

impl SortExpr {
    /// Equality after normalizing every argument with `rules` (at most
    /// `step_limit` rewrites each); heads must agree.
    pub fn alpha_eq_modulo_rewrites(&self, other: &SortExpr, rules: &Vec<DirectedEquation>, step_limit: usize) -> (r: bool)
        ensures
            r == modulo_rewrites_status(self@, other@, rules_view(rules@), step_limit as nat).0,
    {
        self.alpha_eq_modulo_rewrites_status(other, rules, step_limit).0
    }

    /// As [`SortExpr::alpha_eq_modulo_rewrites`], also reporting whether
    /// any normalization ran out of steps.
    pub fn alpha_eq_modulo_rewrites_status(&self, other: &SortExpr, rules: &Vec<DirectedEquation>, step_limit: usize) -> (r: (bool, bool))
        ensures
            r == modulo_rewrites_status(self@, other@, rules_view(rules@), step_limit as nat),
    {
        let a = self.args();
        let b = other.args();
        if !(*self.head() == *other.head()) || a.len() != b.len() {
            return (false, false);
        }
        let (l, lx) = normalize_terms(&a, rules, step_limit);
        let (r, rx) = normalize_terms(&b, rules, step_limit);
        let eq = term_lists_eq(&l, &r);
        proof {
            let ln = normalize_all(self@.args, rules_view(rules@), step_limit as nat);
            let rn = normalize_all(other@.args, rules_view(rules@), step_limit as nat);
            assert(view_terms(l@) =~= Seq::new(ln.len(), |i: int| ln[i].0));
            assert(view_terms(r@) =~= Seq::new(rn.len(), |i: int| rn[i].0));
        }
        (eq, lx || rx)
    }
}

impl PartialEq for SortExpr {
    fn eq(&self, other: &SortExpr) -> (r: bool) {
        self.alpha_eq(other)
    }
}

impl Eq for SortExpr {

}

impl PartialEqSpecImpl for SortExpr {
    open spec fn obeys_eq_spec() -> bool {
        true
    }

    open spec fn eq_spec(&self, other: &SortExpr) -> bool {
        self@ == other@
    }
}

impl Clone for SortExpr {
    fn clone(&self) -> (r: SortExpr)
        ensures
            r@ == self@,
    {
        self.copy()
    }
}

impl From<&str> for SortExpr {
    fn from(s: &str) -> (r: SortExpr)
        ensures
            r@ == (SSortExpr { head: s@, args: Seq::empty() }),
    {
        SortExpr::Name(s.to_owned())
    }
}

impl FromSpecImpl<&str> for SortExpr {
    open spec fn obeys_from_spec() -> bool {
        false
    }

    open spec fn from_spec(v: &str) -> SortExpr {
        arbitrary()
    }
}

// ---------------------------------------------------------------------------
// Positional renaming of parameters
// ---------------------------------------------------------------------------

/// The renaming built from the first `n` position pairs: a later pair
/// overrides an earlier one with the same domain name, and pairs whose
/// names agree are skipped.
pub open spec fn positional_rename_upto(d: Seq<Seq<char>>, t: Seq<Seq<char>>, n: int) -> Map<Seq<char>, STerm>
    decreases n,
{
    if n <= 0 {
        Map::empty()
    } else {
        let m = positional_rename_upto(d, t, n - 1);
        if d[n - 1] != t[n - 1] {
            m.insert(d[n - 1], STerm::Var(t[n - 1]))
        } else {
            m
        }
    }
}

/// The renaming that sends each domain name to the target name at the
/// same position, over the positions both lists have.
pub open spec fn positional_rename(d: Seq<Seq<char>>, t: Seq<Seq<char>>) -> Map<Seq<char>, STerm> {
    positional_rename_upto(d, t, if d.len() < t.len() { d.len() as int } else { t.len() as int })
}

/// Send each domain parameter name to the target name at the same
/// position; positions where the names agree, and positions past the
/// shorter list, are not bound.
pub fn positional_param_rename(domain_params: &Vec<String>, target_params: &Vec<String>) -> (r: Subst)
    ensures
        r@ == positional_rename(
            Seq::new(domain_params@.len(), |i: int| domain_params@[i]@),
            Seq::new(target_params@.len(), |i: int| target_params@[i]@),
        ),
{
    let ghost d = Seq::new(domain_params@.len(), |i: int| domain_params@[i]@);
    let ghost t = Seq::new(target_params@.len(), |i: int| target_params@[i]@);
    let n = if domain_params.len() < target_params.len() {
        domain_params.len()
    } else {
        target_params.len()
    };
    let mut r = Subst::new();
    let mut i: usize = 0;
    while i < n
        invariant
            n <= domain_params@.len(),
            n <= target_params@.len(),
            d == Seq::new(domain_params@.len(), |i: int| domain_params@[i]@),
            t == Seq::new(target_params@.len(), |i: int| target_params@[i]@),
            i <= n,
            r@ == positional_rename_upto(d, t, i as int),
        decreases n - i,
    {
        if !(domain_params[i] == target_params[i]) {
            r.insert(domain_params[i].clone(), Term::Var(target_params[i].clone()));
        }
        i = i + 1;
    }
    r
}

/// Identical parameter lists give the empty renaming.
pub proof fn lemma_positional_rename_identity(d: Seq<Seq<char>>)
    ensures
        positional_rename(d, d) == Map::<Seq<char>, STerm>::empty(),
{
    lemma_positional_rename_upto_identity(d, d.len() as int);
}

proof fn lemma_positional_rename_upto_identity(d: Seq<Seq<char>>, n: int)
    requires
        n <= d.len(),
    ensures
        positional_rename_upto(d, d, n) == Map::<Seq<char>, STerm>::empty(),
    decreases n,
{
    if n > 0 {
        lemma_positional_rename_upto_identity(d, n - 1);
    }
}

/// The parameter names of a list of typed inputs.
pub open spec fn input_names(v: Seq<(Seq<char>, SSortExpr, Implicit)>) -> Seq<Seq<char>> {
    Seq::new(v.len(), |i: int| v[i].0)
}

/// Two signatures agree up to a positional renaming of their parameters:
/// same arity, same implicit tags, and every left sort (inputs and output)
/// equals the right one after the renaming.
pub open spec fn signatures_equivalent(
    li: Seq<(Seq<char>, SSortExpr, Implicit)>,
    lo: SSortExpr,
    ri: Seq<(Seq<char>, SSortExpr, Implicit)>,
    ro: SSortExpr,
) -> bool {
    let rn = positional_rename(input_names(li), input_names(ri));
    &&& li.len() == ri.len()
    &&& forall|i: int| 0 <= i < li.len() ==> (#[trigger] li[i]).2 == ri[i].2 && subst_sort(li[i].1, rn) == ri[i].1
    &&& subst_sort(lo, rn) == ro
}

/// Compare two operation signatures modulo a positional renaming of the
/// declared parameter names.
pub fn signatures_equivalent_modulo_param_rename(
    lhs_inputs: &Vec<(String, SortExpr, Implicit)>,
    lhs_output: &SortExpr,
    rhs_inputs: &Vec<(String, SortExpr, Implicit)>,
    rhs_output: &SortExpr,
) -> (r: bool)
    ensures
        r == signatures_equivalent(inputs_view(lhs_inputs@), lhs_output@, inputs_view(rhs_inputs@), rhs_output@),
{
    let ghost li = inputs_view(lhs_inputs@);
    let ghost ri = inputs_view(rhs_inputs@);
    if lhs_inputs.len() != rhs_inputs.len() {
        return false;
    }
    let mut ln: Vec<String> = Vec::new();
    let mut rn: Vec<String> = Vec::new();
    let mut i: usize = 0;
    while i < lhs_inputs.len()
        invariant
            lhs_inputs@.len() == rhs_inputs@.len(),
            i <= lhs_inputs@.len(),
            ln@.len() == i,
            rn@.len() == i,
            forall|j: int| 0 <= j < i ==> #[trigger] ln@[j]@ == lhs_inputs@[j].0@,
            forall|j: int| 0 <= j < i ==> #[trigger] rn@[j]@ == rhs_inputs@[j].0@,
        decreases lhs_inputs@.len() - i,
    {
        ln.push(lhs_inputs[i].0.clone());
        rn.push(rhs_inputs[i].0.clone());
        i = i + 1;
    }
    let rename = positional_param_rename(&ln, &rn);
    proof {
        assert(Seq::new(ln@.len(), |i: int| ln@[i]@) =~= input_names(li));
        assert(Seq::new(rn@.len(), |i: int| rn@[i]@) =~= input_names(ri));
    }
    let mut i: usize = 0;
    while i < lhs_inputs.len()
        invariant
            li == inputs_view(lhs_inputs@),
            ri == inputs_view(rhs_inputs@),
            lhs_inputs@.len() == rhs_inputs@.len(),
            rename@ == positional_rename(input_names(li), input_names(ri)),
            i <= lhs_inputs@.len(),
            forall|j: int| 0 <= j < i ==> (#[trigger] li[j]).2 == ri[j].2 && subst_sort(li[j].1, rename@) == ri[j].1,
        decreases lhs_inputs@.len() - i,
    {
        if lhs_inputs[i].2 != rhs_inputs[i].2 {
            assert(li[i as int].2 != ri[i as int].2);
            return false;
        }
        let l = lhs_inputs[i].1.subst(&rename);
        if !l.alpha_eq(&rhs_inputs[i].1) {
            assert(subst_sort(li[i as int].1, rename@) != ri[i as int].1);
            return false;
        }
        i = i + 1;
    }
    let o = lhs_output.subst(&rename);
    o.alpha_eq(rhs_output)
}

/// A parameter of a dependent sort.
#[derive(Debug)]
pub struct SortParam {
    /// The parameter name.
    pub name: String,
    /// The sort the parameter ranges over.
    pub sort: SortExpr,
}

/// The model of a sort parameter.
pub open spec fn param_view(p: SortParam) -> (Seq<char>, SSortExpr) {
    (p.name@, p.sort@)
}

/// The models of a list of sort parameters.
pub open spec fn params_view(ps: Seq<SortParam>) -> Seq<(Seq<char>, SSortExpr)> {
    Seq::new(ps.len(), |i: int| param_view(ps[i]))
}

impl SortParam {
    /// A sort parameter.
    pub fn new(name: &str, sort: SortExpr) -> (r: SortParam)
        ensures
            r.name@ == name@,
            r.sort@ == sort@,
            sort.is_normal() ==> r.sort.is_normal(),
    {
        SortParam { name: name.to_owned(), sort }
    }

    /// A structural copy.
    pub fn copy(&self) -> (r: SortParam)
        ensures
            param_view(r) == param_view(*self),
    {
        SortParam { name: self.name.clone(), sort: self.sort.copy() }
    }
}

/// Copy a list of sort parameters.
pub fn copy_params(ps: &Vec<SortParam>) -> (r: Vec<SortParam>)
    ensures
        params_view(r@) == params_view(ps@),
{
    let mut r: Vec<SortParam> = Vec::new();
    let mut i: usize = 0;
    while i < ps.len()
        invariant
            i <= ps@.len(),
            r@.len() == i,
            forall|j: int| 0 <= j < i ==> param_view(#[trigger] r@[j]) == param_view(ps@[j]),
        decreases ps@.len() - i,
    {
        r.push(ps[i].copy());
        i = i + 1;
    }
    assert(params_view(r@) =~= params_view(ps@));
    r
}

/// Two parameter blocks agree up to a positional renaming of their names.
pub open spec fn sort_params_equivalent(l: Seq<(Seq<char>, SSortExpr)>, r: Seq<(Seq<char>, SSortExpr)>) -> bool {
    let rn = positional_rename(Seq::new(l.len(), |i: int| l[i].0), Seq::new(r.len(), |i: int| r[i].0));
    &&& l.len() == r.len()
    &&& forall|i: int| 0 <= i < l.len() ==> subst_sort((#[trigger] l[i]).1, rn) == r[i].1
}

/// Compare two sort parameter blocks modulo a positional renaming of the
/// parameter names.
pub fn sort_params_equivalent_modulo_rename(lhs: &Vec<SortParam>, rhs: &Vec<SortParam>) -> (r: bool)
    ensures
        r == sort_params_equivalent(params_view(lhs@), params_view(rhs@)),
{
    let ghost l = params_view(lhs@);
    let ghost rv = params_view(rhs@);
    if lhs.len() != rhs.len() {
        return false;
    }
    let mut ln: Vec<String> = Vec::new();
    let mut rn: Vec<String> = Vec::new();
    let mut i: usize = 0;
    while i < lhs.len()
        invariant
            lhs@.len() == rhs@.len(),
            i <= lhs@.len(),
            ln@.len() == i,
            rn@.len() == i,
            forall|j: int| 0 <= j < i ==> #[trigger] ln@[j]@ == lhs@[j].name@,
            forall|j: int| 0 <= j < i ==> #[trigger] rn@[j]@ == rhs@[j].name@,
        decreases lhs@.len() - i,
    {
        ln.push(lhs[i].name.clone());
        rn.push(rhs[i].name.clone());
        i = i + 1;
    }
    let rename = positional_param_rename(&ln, &rn);
    proof {
        assert(Seq::new(ln@.len(), |i: int| ln@[i]@) =~= Seq::new(l.len(), |i: int| l[i].0));
        assert(Seq::new(rn@.len(), |i: int| rn@[i]@) =~= Seq::new(rv.len(), |i: int| rv[i].0));
    }
    let mut i: usize = 0;
    while i < lhs.len()
        invariant
            l == params_view(lhs@),
            rv == params_view(rhs@),
            lhs@.len() == rhs@.len(),
            rename@ == positional_rename(Seq::new(l.len(), |i: int| l[i].0), Seq::new(rv.len(), |i: int| rv[i].0)),
            i <= lhs@.len(),
            forall|j: int| 0 <= j < i ==> subst_sort((#[trigger] l[j]).1, rename@) == rv[j].1,
        decreases lhs@.len() - i,
    {
        let s = lhs[i].sort.subst(&rename);
        if !s.alpha_eq(&rhs[i].sort) {
            assert(subst_sort(l[i as int].1, rename@) != rv[i as int].1);
            return false;
        }
        i = i + 1;
    }
    true
}

// ---------------------------------------------------------------------------
// Coercion classes
// ---------------------------------------------------------------------------

/// Round-trip classification of a coercion: a diamond lattice with `Iso`
/// on top, `Opaque` at the bottom and `Retraction`, `Projection` between.
#[derive(Debug, Clone, Copy, PartialEq, Eq, Structural, Hash, Default)]
pub enum CoercionClass {
    /// Both round-trip laws hold; nothing to store.
    #[default]
    Iso,
    /// The forward map has a left inverse; the residual is stored.
    Retraction,
    /// The result is re-derivable from the source; nothing to store.
    Projection,
    /// No structural relationship; the whole value is stored.
    Opaque,
}

/// The lattice meet of two classes.
pub open spec fn compose_class(a: CoercionClass, b: CoercionClass) -> CoercionClass {
    if a == CoercionClass::Iso {
        b
    } else if b == CoercionClass::Iso {
        a
    } else if a == CoercionClass::Opaque || b == CoercionClass::Opaque {
        CoercionClass::Opaque
    } else if a == b {
        a
    } else {
        CoercionClass::Opaque
    }
}

/// Position of a class in the lossiness order `Iso < Retraction <
/// Projection < Opaque`.
pub open spec fn class_rank(c: CoercionClass) -> int {
    match c {
        CoercionClass::Iso => 0,
        CoercionClass::Retraction => 1,
        CoercionClass::Projection => 2,
        CoercionClass::Opaque => 3,
    }
}

/// The order of two classes by [`class_rank`].
pub open spec fn class_cmp(a: CoercionClass, b: CoercionClass) -> Ordering {
    if class_rank(a) < class_rank(b) {
        Ordering::Less
    } else if class_rank(a) == class_rank(b) {
        Ordering::Equal
    } else {
        Ordering::Greater
    }
}

impl CoercionClass {
    /// Compose two classes: `Iso` is the identity, `Opaque` absorbs, a
    /// class composed with itself is itself, and `Retraction` with
    /// `Projection` collapses to `Opaque`.
    pub fn compose(self, other: CoercionClass) -> (r: CoercionClass)
        ensures
            r == compose_class(self, other),
    {
        match self {
            CoercionClass::Iso => other,
            CoercionClass::Opaque => match other {
                CoercionClass::Iso => self,
                _ => CoercionClass::Opaque,
            },
            CoercionClass::Retraction => match other {
                CoercionClass::Iso => self,
                CoercionClass::Retraction => CoercionClass::Retraction,
                _ => CoercionClass::Opaque,
            },
            CoercionClass::Projection => match other {
                CoercionClass::Iso => self,
                CoercionClass::Projection => CoercionClass::Projection,
                _ => CoercionClass::Opaque,
            },
        }
    }

    /// Only `Iso` is lossless.
    pub fn is_lossless(self) -> (r: bool)
        ensures
            r == (self == CoercionClass::Iso),
    {
        match self {
            CoercionClass::Iso => true,
            _ => false,
        }
    }

    /// `Retraction` and `Opaque` need complement storage.
    pub fn needs_complement_storage(self) -> (r: bool)
        ensures
            r == (self == CoercionClass::Retraction || self == CoercionClass::Opaque),
    {
        match self {
            CoercionClass::Retraction | CoercionClass::Opaque => true,
            _ => false,
        }
    }

    /// Every class, in lattice order from `Iso` to `Opaque`.
    pub fn all() -> (r: Vec<CoercionClass>)
        ensures
            r@ == seq![CoercionClass::Iso, CoercionClass::Retraction, CoercionClass::Projection, CoercionClass::Opaque],
    {
        vec![CoercionClass::Iso, CoercionClass::Retraction, CoercionClass::Projection, CoercionClass::Opaque]
    }

    /// Position in the lossiness order.
    pub fn rank(self) -> (r: u8)
        ensures
            r == class_rank(self),
    {
        match self {
            CoercionClass::Iso => 0,
            CoercionClass::Retraction => 1,
            CoercionClass::Projection => 2,
            CoercionClass::Opaque => 3,
        }
    }
}

impl PartialOrd for CoercionClass {
    fn partial_cmp(&self, other: &CoercionClass) -> (r: Option<Ordering>) {
        let a = self.rank();
        let b = other.rank();
        if a < b {
            Some(Ordering::Less)
        } else if a == b {
            Some(Ordering::Equal)
        } else {
            Some(Ordering::Greater)
        }
    }
}

impl PartialOrdSpecImpl for CoercionClass {
    open spec fn obeys_partial_cmp_spec() -> bool {
        true
    }

    open spec fn partial_cmp_spec(&self, other: &CoercionClass) -> Option<Ordering> {
        Some(class_cmp(*self, *other))
    }
}

/// Composition of classes: `Iso` is a two-sided identity, `Opaque`
/// absorbs, composition is commutative and associative, and a composite
/// is at least as lossy as either part.
pub proof fn lemma_compose_class_laws(a: CoercionClass, b: CoercionClass, c: CoercionClass)
    ensures
        compose_class(CoercionClass::Iso, a) == a,
        compose_class(a, CoercionClass::Iso) == a,
        compose_class(CoercionClass::Opaque, a) == CoercionClass::Opaque,
        compose_class(a, CoercionClass::Opaque) == CoercionClass::Opaque,
        compose_class(a, b) == compose_class(b, a),
        compose_class(compose_class(a, b), c) == compose_class(a, compose_class(b, c)),
        compose_class(a, a) == a,
        class_rank(compose_class(a, b)) >= class_rank(a),
        class_rank(compose_class(a, b)) >= class_rank(b),
{
}

/// Complement storage is needed exactly for the classes that are
/// neither lossless nor re-derivable.
pub proof fn lemma_complement_storage(c: CoercionClass)
    ensures
        (c == CoercionClass::Retraction || c == CoercionClass::Opaque) <==> !(c == CoercionClass::Iso || c == CoercionClass::Projection),
{
}

// ---------------------------------------------------------------------------
// Value kinds
// ---------------------------------------------------------------------------

/// The primitive kind of value that a value sort ranges over.
#[derive(Debug, Clone, Copy, PartialEq, Eq, Structural, Hash)]
pub enum ValueKind {
    /// Booleans.
    Bool,
    /// Integers.
    Int,
    /// Floating-point numbers.
    Float,
    /// Strings.
    Str,
    /// Byte sequences.
    Bytes,
    /// Opaque tokens.
    Token,
    /// Null.
    Null,
    /// Any kind.
    Any,
    /// ISO 8601 date-time strings.
    DateTime,
    /// ISO 8601 dates.
    Date,
    /// ISO 8601 wall-clock times.
    Time,
    /// Exact base-10 decimals.
    Decimal,
    /// RFC 4122 UUIDs.
    Uuid,
}

/// The canonical name of a value kind.
pub open spec fn value_kind_name(k: ValueKind) -> Seq<char> {
    match k {
        ValueKind::Bool => "boolean"@,
        ValueKind::Int => "integer"@,
        ValueKind::Float => "number"@,
        ValueKind::Str => "string"@,
        ValueKind::Bytes => "bytes"@,
        ValueKind::Token => "token"@,
        ValueKind::Null => "null"@,
        ValueKind::DateTime => "date-time"@,
        ValueKind::Date => "date"@,
        ValueKind::Time => "time"@,
        ValueKind::Decimal => "decimal"@,
        ValueKind::Uuid => "uuid"@,
        ValueKind::Any => "any"@,
    }
}

impl ValueKind {
    /// The canonical name of this value kind.
    pub fn as_str(&self) -> (r: &'static str)
        ensures
            r@ == value_kind_name(*self),
    {
        match self {
            ValueKind::Bool => "boolean",
            ValueKind::Int => "integer",
            ValueKind::Float => "number",
            ValueKind::Str => "string",
            ValueKind::Bytes => "bytes",
            ValueKind::Token => "token",
            ValueKind::Null => "null",
            ValueKind::DateTime => "date-time",
            ValueKind::Date => "date",
            ValueKind::Time => "time",
            ValueKind::Decimal => "decimal",
            ValueKind::Uuid => "uuid",
            ValueKind::Any => "any",
        }
    }

    /// Every value kind, in canonical order.
    pub fn all() -> (r: Vec<ValueKind>)
        ensures
            r@ == seq![
                ValueKind::Bool,
                ValueKind::Int,
                ValueKind::Float,
                ValueKind::Str,
                ValueKind::Bytes,
                ValueKind::Token,
                ValueKind::Null,
                ValueKind::DateTime,
                ValueKind::Date,
                ValueKind::Time,
                ValueKind::Decimal,
                ValueKind::Uuid,
                ValueKind::Any,
            ],
    {
        vec![
            ValueKind::Bool,
            ValueKind::Int,
            ValueKind::Float,
            ValueKind::Str,
            ValueKind::Bytes,
            ValueKind::Token,
            ValueKind::Null,
            ValueKind::DateTime,
            ValueKind::Date,
            ValueKind::Time,
            ValueKind::Decimal,
            ValueKind::Uuid,
            ValueKind::Any,
        ]
    }
}

/// The builtin operations of the expression language that a coercion
/// classification distinguishes: the six conversions between integers,
/// floats and strings, and two representatives of the other builtins.
#[derive(Debug, Clone, Copy, PartialEq, Eq, Structural, Hash)]
pub enum BuiltinOp {
    /// Integer to float.
    IntToFloat,
    /// Float to integer (truncating).
    FloatToInt,
    /// Integer to string.
    IntToStr,
    /// Float to string.
    FloatToStr,
    /// String to integer (partial).
    StrToInt,
    /// String to float (partial).
    StrToFloat,
    /// Addition.
    Add,
    /// String concatenation.
    Concat,
}

/// The classification of a builtin coercion: source kind, target kind and
/// round-trip class; `None` for a builtin that is not a coercion.
pub open spec fn builtin_coercion(op: BuiltinOp) -> Option<(ValueKind, ValueKind, CoercionClass)> {
    match op {
        BuiltinOp::IntToFloat => Some((ValueKind::Int, ValueKind::Float, CoercionClass::Retraction)),
        BuiltinOp::FloatToInt => Some((ValueKind::Float, ValueKind::Int, CoercionClass::Opaque)),
        BuiltinOp::IntToStr => Some((ValueKind::Int, ValueKind::Str, CoercionClass::Retraction)),
        BuiltinOp::FloatToStr => Some((ValueKind::Float, ValueKind::Str, CoercionClass::Opaque)),
        BuiltinOp::StrToInt => Some((ValueKind::Str, ValueKind::Int, CoercionClass::Opaque)),
        BuiltinOp::StrToFloat => Some((ValueKind::Str, ValueKind::Float, CoercionClass::Opaque)),
        _ => None,
    }
}

/// Classify a builtin coercion by source kind, target kind and class.
pub fn classify_builtin_coercion(op: BuiltinOp) -> (r: Option<(ValueKind, ValueKind, CoercionClass)>)
    ensures
        r == builtin_coercion(op),
{
    match op {
        BuiltinOp::IntToFloat => Some((ValueKind::Int, ValueKind::Float, CoercionClass::Retraction)),
        BuiltinOp::FloatToInt => Some((ValueKind::Float, ValueKind::Int, CoercionClass::Opaque)),
        BuiltinOp::IntToStr => Some((ValueKind::Int, ValueKind::Str, CoercionClass::Retraction)),
        BuiltinOp::FloatToStr => Some((ValueKind::Float, ValueKind::Str, CoercionClass::Opaque)),
        BuiltinOp::StrToInt => Some((ValueKind::Str, ValueKind::Int, CoercionClass::Opaque)),
        BuiltinOp::StrToFloat => Some((ValueKind::Str, ValueKind::Float, CoercionClass::Opaque)),
        _ => None,
    }
}

/// No builtin coercion is classified as an isomorphism.
pub proof fn lemma_no_builtin_iso(op: BuiltinOp)
    ensures
        builtin_coercion(op) matches Some(t) ==> t.2 != CoercionClass::Iso,
{
}

// ---------------------------------------------------------------------------
// Sorts
// ---------------------------------------------------------------------------

/// The kind of a sort.
#[derive(Debug, Clone, Copy, PartialEq, Eq, Structural, Hash, Default)]
pub enum SortKind {
    /// A structural sort (vertices, edges, constraints).
    #[default]
    Structure,
    /// A value sort of the given kind.
    Val(ValueKind),
    /// A coercion between value kinds.
    Coercion {
        /// Source kind.
        from: ValueKind,
        /// Target kind.
        to: ValueKind,
        /// Round-trip class.
        class: CoercionClass,
    },
    /// A merger of values of the given kind.
    Merger(ValueKind),
}

/// Whether a sort is open or closed against a list of constructors.
#[derive(Debug, PartialEq, Eq)]
pub enum SortClosure {
    /// Any operation with this output head may produce an inhabitant.
    Open,
    /// The listed operations are the complete set of constructors.
    Closed(Vec<String>),
}

/// The model of a closure: the constructor names of a closed sort.
pub open spec fn closure_view(c: SortClosure) -> Option<Seq<Seq<char>>> {
    match c {
        SortClosure::Open => None,
        SortClosure::Closed(cs) => Some(Seq::new(cs@.len(), |i: int| cs@[i]@)),
    }
}

impl SortClosure {
    /// A structural copy.
    pub fn copy(&self) -> (r: SortClosure)
        ensures
            closure_view(r) == closure_view(*self),
    {
        match self {
            SortClosure::Open => SortClosure::Open,
            SortClosure::Closed(cs) => {
                let mut v: Vec<String> = Vec::new();
                let mut i: usize = 0;
                while i < cs.len()
                    invariant
                        i <= cs@.len(),
                        v@ == cs@.take(i as int),
                    decreases cs@.len() - i,
                {
                    v.push(cs[i].clone());
                    proof {
                        assert(v@ =~= cs@.take(i + 1));
                    }
                    i = i + 1;
                }
                proof {
                    assert(v@ =~= cs@);
                }
                let r = SortClosure::Closed(v);
                assert(closure_view(r) =~~= closure_view(*self));
                r
            },
        }
    }
}

/// A sort declaration.
#[derive(Debug)]
pub struct Sort {
    /// The sort name.
    pub name: String,
    /// The parameters; empty for a simple sort.
    pub params: Vec<SortParam>,
    /// The sort's kind.
    pub kind: SortKind,
    /// Open or closed.
    pub closure: SortClosure,
}

/// The model of a sort declaration.
pub struct SSort {
    /// The name.
    pub name: Seq<char>,
    /// The parameters.
    pub params: Seq<(Seq<char>, SSortExpr)>,
    /// The kind.
    pub kind: SortKind,
    /// The constructors of a closed sort.
    pub closure: Option<Seq<Seq<char>>>,
}

impl View for Sort {
    type V = SSort;

    open spec fn view(&self) -> SSort {
        SSort { name: self.name@, params: params_view(self.params@), kind: self.kind, closure: closure_view(self.closure) }
    }
}

/// Two parameter lists are equal: same names and equal sorts, in order.
pub fn params_eq(a: &Vec<SortParam>, b: &Vec<SortParam>) -> (r: bool)
    ensures
        r == (params_view(a@) == params_view(b@)),
{
    if a.len() != b.len() {
        assert(params_view(a@).len() != params_view(b@).len());
        return false;
    }
    let mut i: usize = 0;
    while i < a.len()
        invariant
            a@.len() == b@.len(),
            i <= a@.len(),
            forall|j: int| 0 <= j < i ==> param_view(#[trigger] a@[j]) == param_view(b@[j]),
        decreases a@.len() - i,
    {
        if !(a[i].name == b[i].name) || !a[i].sort.alpha_eq(&b[i].sort) {
            assert(params_view(a@)[i as int] != params_view(b@)[i as int]);
            return false;
        }
        i = i + 1;
    }
    assert(params_view(a@) =~= params_view(b@));
    true
}

impl Sort {
    /// A simple structural open sort.
    pub fn simple(name: &str) -> (r: Sort)
        ensures
            r.name@ == name@,
            r.params@.len() == 0,
            r.kind == SortKind::Structure,
            r.closure == SortClosure::Open,
    {
        Sort { name: name.to_owned(), params: Vec::new(), kind: SortKind::Structure, closure: SortClosure::Open }
    }

    /// A dependent structural open sort.
    pub fn dependent(name: &str, params: Vec<SortParam>) -> (r: Sort)
        ensures
            r.name@ == name@,
            r.params@ == params@,
            r.kind == SortKind::Structure,
            r.closure == SortClosure::Open,
    {
        Sort { name: name.to_owned(), params, kind: SortKind::Structure, closure: SortClosure::Open }
    }

    /// A simple open sort of the given kind.
    pub fn with_kind(name: &str, kind: SortKind) -> (r: Sort)
        ensures
            r.name@ == name@,
            r.params@.len() == 0,
            r.kind == kind,
            r.closure == SortClosure::Open,
    {
        Sort { name: name.to_owned(), params: Vec::new(), kind, closure: SortClosure::Open }
    }

    /// A closed structural sort with the given constructors.
    pub fn closed(name: &str, params: Vec<SortParam>, constructors: &[&str]) -> (r: Sort)
        ensures
            r.name@ == name@,
            r.params@ == params@,
            r.kind == SortKind::Structure,
            r.closure matches SortClosure::Closed(cs) && cs@.len() == constructors@.len()
                && forall|i: int| 0 <= i < cs@.len() ==> #[trigger] cs@[i]@ == constructors@[i]@,
    {
        let mut cs: Vec<String> = Vec::new();
        let mut i: usize = 0;
        while i < constructors.len()
            invariant
                i <= constructors@.len(),
                cs@.len() == i,
                forall|j: int| 0 <= j < i ==> #[trigger] cs@[j]@ == constructors@[j]@,
            decreases constructors@.len() - i,
        {
            cs.push(constructors[i].to_owned());
            i = i + 1;
        }
        Sort { name: name.to_owned(), params, kind: SortKind::Structure, closure: SortClosure::Closed(cs) }
    }

    /// The schema-level vertex kind: the value kind's name for a value
    /// sort, the sort's own name otherwise.
    pub fn default_vertex_kind(&self) -> (r: String)
        ensures
            r@ == match self.kind {
                SortKind::Val(vk) => value_kind_name(vk),
                _ => self.name@,
            },
    {
        match self.kind {
            SortKind::Val(vk) => vk.as_str().to_owned(),
            _ => self.name.clone(),
        }
    }

    /// Whether the sort has no parameters.
    pub fn is_simple(&self) -> (r: bool)
        ensures
            r == (self.params@.len() == 0),
    {
        self.params.len() == 0
    }

    /// The number of parameters.
    pub fn arity(&self) -> (r: usize)
        ensures
            r == self.params@.len(),
    {
        self.params.len()
    }

    /// A structural copy.
    pub fn copy(&self) -> (r: Sort)
        ensures
            r@ == self@,
    {
        Sort {
            name: self.name.clone(),
            params: copy_params(&self.params),
            kind: self.kind,
            closure: self.closure.copy(),
        }
    }
}

} // verus!
