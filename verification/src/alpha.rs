//! Alpha-equivalence of terms and equations: equality up to a consistent
//! bijective renaming of variables.
use vstd::prelude::*;

use crate::maps::RenameMap;
use crate::term::{CaseBranch, SBranch, STerm, Term, lemma_app_view, lemma_case_view, view_branches, view_terms};

verus! {

/// The variable correspondence built up while comparing two terms: the
/// forward map sends left names to right names, the backward map right
/// names to left names.
pub struct AlphaState {
    /// Left name to right name.
    pub fwd: Map<Seq<char>, Seq<char>>,
    /// Right name to left name.
    pub bwd: Map<Seq<char>, Seq<char>>,
}

/// The empty correspondence.
pub open spec fn empty_state() -> AlphaState {
    AlphaState { fwd: Map::empty(), bwd: Map::empty() }
}

/// Extend a correspondence with the pair `a ↔ b` in both directions.
pub open spec fn bind_pair(st: AlphaState, a: Seq<char>, b: Seq<char>) -> AlphaState {
    AlphaState { fwd: st.fwd.insert(a, b), bwd: st.bwd.insert(b, a) }
}

/// Compare two variables: an existing forward binding of `a` decides; else
/// an existing backward binding of `b` decides; else the pair is bound.
pub open spec fn alpha_vars(a: Seq<char>, b: Seq<char>, st: AlphaState) -> (bool, AlphaState) {
    if st.fwd.contains_key(a) {
        (st.fwd[a] == b, st)
    } else if st.bwd.contains_key(b) {
        (st.bwd[b] == a, st)
    } else {
        (true, bind_pair(st, a, b))
    }
}

/// Bind the first `n` binder pairs of two branches, in order.
pub open spec fn bind_pairs(xs: Seq<Seq<char>>, ys: Seq<Seq<char>>, n: int, st: AlphaState) -> AlphaState
    decreases n,
{
    if n <= 0 {
        st
    } else {
        bind_pair(bind_pairs(xs, ys, n - 1, st), xs[n - 1], ys[n - 1])
    }
}

/// The comparison of two term models from a given correspondence: the
/// verdict and the correspondence afterwards. Binders of `let` and case
/// branches are bound for their scope only; a branch's bindings (and those
/// its body discovers) are dropped after it.
pub open spec fn alpha_check(t1: STerm, t2: STerm, st: AlphaState) -> (bool, AlphaState)
    decreases t1, 0nat,
{
    match t1 {
        STerm::Var(a) => match t2 {
            STerm::Var(b) => alpha_vars(a, b, st),
            _ => (false, st),
        },
        STerm::App { op: op1, args: args1 } => match t2 {
            STerm::App { op: op2, args: args2 } => if op1 != op2 || args1.len() != args2.len() {
                (false, st)
            } else {
                alpha_list(args1, args2, 0, st)
            },
            _ => (false, st),
        },
        STerm::Case { scrutinee: s1, branches: b1 } => match t2 {
            STerm::Case { scrutinee: s2, branches: b2 } => {
                let r = alpha_check(*s1, *s2, st);
                if !r.0 {
                    r
                } else if b1.len() != b2.len() {
                    (false, r.1)
                } else {
                    alpha_branches(b1, b2, 0, r.1)
                }
            },
            _ => (false, st),
        },
        STerm::Hole { name: n1 } => match t2 {
            STerm::Hole { name: n2 } => (n1 == n2, st),
            _ => (false, st),
        },
        STerm::Let { name: n1, bound: bd1, body: body1 } => match t2 {
            STerm::Let { name: n2, bound: bd2, body: body2 } => {
                let r = alpha_check(*bd1, *bd2, st);
                if !r.0 {
                    r
                } else {
                    let q = alpha_check(*body1, *body2, bind_pair(r.1, n1, n2));
                    (q.0, r.1)
                }
            },
            _ => (false, st),
        },
    }
}

/// Pairwise comparison of two argument lists from position `i` on,
/// threading the correspondence; stops at the first failure.
pub open spec fn alpha_list(a1: Seq<STerm>, a2: Seq<STerm>, i: int, st: AlphaState) -> (bool, AlphaState)
    decreases a1, (if 0 <= i < a1.len() { a1.len() - i } else { 0 }) as nat,
{
    if 0 <= i < a1.len() {
        let r = alpha_check(a1[i], a2[i], st);
        if !r.0 {
            r
        } else {
            alpha_list(a1, a2, i + 1, r.1)
        }
    } else {
        (true, st)
    }
}

/// Pairwise comparison of two branch lists from position `i` on: same
/// constructor, same number of binders, and bodies equivalent under the
/// binder pairs; the correspondence is unchanged by a branch.
pub open spec fn alpha_branches(b1: Seq<SBranch>, b2: Seq<SBranch>, i: int, st: AlphaState) -> (bool, AlphaState)
    decreases b1, (if 0 <= i < b1.len() { b1.len() - i } else { 0 }) as nat,
{
    if 0 <= i < b1.len() {
        let x = b1[i];
        let y = b2[i];
        if x.constructor != y.constructor || x.binders.len() != y.binders.len() {
            (false, st)
        } else {
            let r = alpha_check(x.body, y.body, bind_pairs(x.binders, y.binders, x.binders.len() as int, st));
            if !r.0 {
                (false, st)
            } else {
                alpha_branches(b1, b2, i + 1, st)
            }
        }
    } else {
        (true, st)
    }
}

/// Alpha-equivalence of two term models.
pub open spec fn alpha_equiv(t1: STerm, t2: STerm) -> bool {
    alpha_check(t1, t2, empty_state()).0
}

/// Alpha-equivalence of two equations under one correspondence for both
/// sides.
pub open spec fn alpha_equiv_equation(l1: STerm, r1: STerm, l2: STerm, r2: STerm) -> bool {
    let a = alpha_check(l1, l2, empty_state());
    a.0 && alpha_check(r1, r2, a.1).0
}

struct AlphaChecker {
    forward: RenameMap,
    backward: RenameMap,
}

impl AlphaChecker {
    spec fn state(&self) -> AlphaState {
        AlphaState { fwd: self.forward@, bwd: self.backward@ }
    }

    fn new() -> (c: AlphaChecker)
        ensures
            c.state() == empty_state(),
    {
        AlphaChecker { forward: RenameMap::new(), backward: RenameMap::new() }
    }

    fn check_vars(&mut self, a: &String, b: &String) -> (r: bool)
        ensures
            (r, final(self).state()) == alpha_vars(a@, b@, old(self).state()),
    {
        match self.forward.get(a) {
            Some(m) => {
                return *m == *b;
            },
            None => {},
        }
        match self.backward.get(b) {
            Some(m) => {
                return *m == *a;
            },
            None => {},
        }
        self.forward.insert(a.clone(), b.clone());
        self.backward.insert(b.clone(), a.clone());
        true
    }

    fn bind(&mut self, a: &String, b: &String)
        ensures
            final(self).state() == bind_pair(old(self).state(), a@, b@),
    {
        self.forward.insert(a.clone(), b.clone());
        self.backward.insert(b.clone(), a.clone());
    }

    fn check(&mut self, t1: &Term, t2: &Term) -> (r: bool)
        ensures
            (r, final(self).state()) == alpha_check(t1@, t2@, old(self).state()),
        decreases t1,
    {
        match t1 {
            Term::Var(a) => match t2 {
                Term::Var(b) => self.check_vars(a, b),
                _ => false,
            },
            Term::App { op: op1, args: args1 } => match t2 {
                Term::App { op: op2, args: args2 } => {
                    proof {
                        lemma_app_view(*t1);
                        lemma_app_view(*t2);
                    }
                    if !(*op1 == *op2) || args1.len() != args2.len() {
                        return false;
                    }
                    self.check_list(args1, args2)
                },
                _ => {
                    proof {
                        lemma_app_view(*t1);
                    }
                    false
                },
            },
            Term::Case { scrutinee: s1, branches: b1 } => match t2 {
                Term::Case { scrutinee: s2, branches: b2 } => {
                    proof {
                        lemma_case_view(*t1);
                        lemma_case_view(*t2);
                    }
                    if !self.check(s1, s2) {
                        return false;
                    }
                    if b1.len() != b2.len() {
                        return false;
                    }
                    self.check_branches(b1, b2)
                },
                _ => {
                    proof {
                        lemma_case_view(*t1);
                    }
                    false
                },
            },
            Term::Hole { name: n1 } => match t2 {
                Term::Hole { name: n2 } => crate::term::opt_names_eq(n1, n2),
                _ => false,
            },
            Term::Let { name: n1, bound: bd1, body: body1 } => match t2 {
                Term::Let { name: n2, bound: bd2, body: body2 } => {
                    if !self.check(bd1, bd2) {
                        return false;
                    }
                    let saved_f = self.forward.copy();
                    let saved_b = self.backward.copy();
                    self.bind(n1, n2);
                    let ok = self.check(body1, body2);
                    self.forward = saved_f;
                    self.backward = saved_b;
                    ok
                },
                _ => false,
            },
        }
    }

    fn check_list(&mut self, args1: &Vec<Term>, args2: &Vec<Term>) -> (r: bool)
        requires
            args1@.len() == args2@.len(),
        ensures
            (r, final(self).state()) == alpha_list(view_terms(args1@), view_terms(args2@), 0, old(self).state()),
        decreases args1,
    {
        let ghost a1 = view_terms(args1@);
        let ghost a2 = view_terms(args2@);
        let ghost st0 = self.state();
        let mut i: usize = 0;
        while i < args1.len()
            invariant
                a1 == view_terms(args1@),
                a2 == view_terms(args2@),
                args1@.len() == args2@.len(),
                i <= args1@.len(),
                st0 == old(self).state(),
                alpha_list(a1, a2, 0, st0) == alpha_list(a1, a2, i as int, self.state()),
            decreases args1@.len() - i,
        {
            proof {
                assert(decreases_to!(args1 => args1@[i as int]));
                assert(a1[i as int] == args1@[i as int]@);
                assert(a2[i as int] == args2@[i as int]@);
            }
            let ghost st_i = self.state();
            let ok = self.check(&args1[i], &args2[i]);
            proof {
                let r = alpha_check(a1[i as int], a2[i as int], st_i);
                assert(r == (ok, self.state()));
                assert(alpha_list(a1, a2, i as int, st_i) == if !r.0 { r } else { alpha_list(a1, a2, i + 1, r.1) });
            }
            if !ok {
                return false;
            }
            i = i + 1;
        }
        true
    }

    fn check_branches(&mut self, b1: &Vec<CaseBranch>, b2: &Vec<CaseBranch>) -> (r: bool)
        requires
            b1@.len() == b2@.len(),
        ensures
            (r, final(self).state()) == alpha_branches(view_branches(b1@), view_branches(b2@), 0, old(self).state()),
        decreases b1,
    {
        let ghost v1 = view_branches(b1@);
        let ghost v2 = view_branches(b2@);
        let ghost st0 = self.state();
        let mut i: usize = 0;
        while i < b1.len()
            invariant
                v1 == view_branches(b1@),
                v2 == view_branches(b2@),
                b1@.len() == b2@.len(),
                i <= b1@.len(),
                self.state() == st0,
                st0 == old(self).state(),
                alpha_branches(v1, v2, 0, st0) == alpha_branches(v1, v2, i as int, st0),
            decreases b1@.len() - i,
        {
            proof {
                assert(decreases_to!(b1 => b1@[i as int]));
            }
            let br1 = &b1[i];
            let br2 = &b2[i];
            proof {
                assert(v1[i as int] == br1@);
                assert(v2[i as int] == br2@);
            }
            if !(br1.constructor == br2.constructor) || br1.binders.len() != br2.binders.len() {
                proof {
                    assert(alpha_branches(v1, v2, i as int, st0) == (false, st0));
                }
                return false;
            }
            let saved_f = self.forward.copy();
            let saved_b = self.backward.copy();
            let ghost xs = v1[i as int].binders;
            let ghost ys = v2[i as int].binders;
            let mut k: usize = 0;
            while k < br1.binders.len()
                invariant
                    xs == crate::term::names_view(br1.binders@),
                    ys == crate::term::names_view(br2.binders@),
                    v1 == view_branches(b1@),
                    v2 == view_branches(b2@),
                    i < b1@.len(),
                    br1.binders@.len() == br2.binders@.len(),
                    k <= br1.binders@.len(),
                    self.state() == bind_pairs(xs, ys, k as int, st0),
                decreases br1.binders@.len() - k,
            {
                self.bind(&br1.binders[k], &br2.binders[k]);
                k = k + 1;
            }
            proof {
                assert(v1[i as int].body == br1.body@);
            }
            let ok = self.check(&br1.body, &br2.body);
            self.forward = saved_f;
            self.backward = saved_b;
            proof {
                let r = alpha_check(v1[i as int].body, v2[i as int].body, bind_pairs(xs, ys, xs.len() as int, st0));
                assert(r.0 == ok);
                assert(alpha_branches(v1, v2, i as int, st0) == if !r.0 { (false, st0) } else { alpha_branches(v1, v2, i + 1, st0) });
            }
            if !ok {
                return false;
            }
            i = i + 1;
        }
        true
    }
}

/// Whether two terms are alpha-equivalent.
pub fn alpha_equivalent(t1: &Term, t2: &Term) -> (r: bool)
    ensures
        r == alpha_equiv(t1@, t2@),
{
    let mut c = AlphaChecker::new();
    c.check(t1, t2)
}

/// Whether two equations are alpha-equivalent, with one variable
/// correspondence for both sides.
pub fn alpha_equivalent_equation(lhs1: &Term, rhs1: &Term, lhs2: &Term, rhs2: &Term) -> (r: bool)
    ensures
        r == alpha_equiv_equation(lhs1@, rhs1@, lhs2@, rhs2@),
{
    let mut c = AlphaChecker::new();
    c.check(lhs1, lhs2) && c.check(rhs1, rhs2)
}

// ---------------------------------------------------------------------------
// Laws
// ---------------------------------------------------------------------------

/// Every name the correspondence knows is sent to itself.
pub open spec fn identity_state(st: AlphaState) -> bool {
    &&& forall|x: Seq<char>| #[trigger] st.fwd.contains_key(x) ==> st.fwd[x] == x
    &&& forall|x: Seq<char>| #[trigger] st.bwd.contains_key(x) ==> st.bwd[x] == x
}

proof fn lemma_bind_pairs_identity(xs: Seq<Seq<char>>, n: int, st: AlphaState)
    requires
        identity_state(st),
        n <= xs.len(),
    ensures
        identity_state(bind_pairs(xs, xs, n, st)),
    decreases n,
{
    if n > 0 {
        lemma_bind_pairs_identity(xs, n - 1, st);
    }
}

proof fn lemma_alpha_refl(t: STerm, st: AlphaState)
    requires
        identity_state(st),
    ensures
        alpha_check(t, t, st).0,
        identity_state(alpha_check(t, t, st).1),
    decreases t, 0nat,
{
    match t {
        STerm::App { op, args } => {
            lemma_alpha_refl_list(args, 0, st);
        },
        STerm::Case { scrutinee, branches } => {
            lemma_alpha_refl(*scrutinee, st);
            lemma_alpha_refl_branches(branches, 0, alpha_check(*scrutinee, *scrutinee, st).1);
        },
        STerm::Let { name, bound, body } => {
            lemma_alpha_refl(*bound, st);
            let st1 = alpha_check(*bound, *bound, st).1;
            lemma_alpha_refl(*body, bind_pair(st1, name, name));
        },
        _ => {},
    }
}

proof fn lemma_alpha_refl_list(a: Seq<STerm>, i: int, st: AlphaState)
    requires
        identity_state(st),
    ensures
        alpha_list(a, a, i, st).0,
        identity_state(alpha_list(a, a, i, st).1),
    decreases a, (if 0 <= i < a.len() { a.len() - i } else { 0 }) as nat,
{
    if 0 <= i < a.len() {
        lemma_alpha_refl(a[i], st);
        lemma_alpha_refl_list(a, i + 1, alpha_check(a[i], a[i], st).1);
    }
}

proof fn lemma_alpha_refl_branches(b: Seq<SBranch>, i: int, st: AlphaState)
    requires
        identity_state(st),
    ensures
        alpha_branches(b, b, i, st).0,
        alpha_branches(b, b, i, st).1 == st,
    decreases b, (if 0 <= i < b.len() { b.len() - i } else { 0 }) as nat,
{
    if 0 <= i < b.len() {
        let x = b[i];
        lemma_bind_pairs_identity(x.binders, x.binders.len() as int, st);
        lemma_alpha_refl(x.body, bind_pairs(x.binders, x.binders, x.binders.len() as int, st));
        lemma_alpha_refl_branches(b, i + 1, st);
    }
}

/// Alpha-equivalence is reflexive: every term is alpha-equivalent to
/// itself, and every equation to itself.
pub proof fn lemma_alpha_equiv_reflexive(t: STerm, u: STerm)
    ensures
        alpha_equiv(t, t),
        alpha_equiv_equation(t, u, t, u),
{
    lemma_alpha_refl(t, empty_state());
    lemma_alpha_refl(u, alpha_check(t, t, empty_state()).1);
}

/// A term built from variables, holes and applications only (no binders).
pub open spec fn first_order(t: STerm) -> bool
    decreases t, 0nat,
{
    match t {
        STerm::Var(_) => true,
        STerm::Hole { .. } => true,
        STerm::App { args, .. } => first_order_list(args, 0),
        _ => false,
    }
}

/// Every term of `a` from position `i` on is first-order.
pub open spec fn first_order_list(a: Seq<STerm>, i: int) -> bool
    decreases a, (if 0 <= i < a.len() { a.len() - i } else { 0 }) as nat,
{
    if 0 <= i < a.len() {
        first_order(a[i]) && first_order_list(a, i + 1)
    } else {
        true
    }
}

/// The forward and backward maps are mutually inverse.
pub open spec fn bijective_state(st: AlphaState) -> bool {
    &&& forall|a: Seq<char>| #[trigger] st.fwd.contains_key(a) ==> st.bwd.contains_key(st.fwd[a]) && st.bwd[st.fwd[a]] == a
    &&& forall|b: Seq<char>| #[trigger] st.bwd.contains_key(b) ==> st.fwd.contains_key(st.bwd[b]) && st.fwd[st.bwd[b]] == b
}

/// The correspondence read from right to left.
pub open spec fn swap_state(st: AlphaState) -> AlphaState {
    AlphaState { fwd: st.bwd, bwd: st.fwd }
}

proof fn lemma_alpha_vars_sym(a: Seq<char>, b: Seq<char>, st: AlphaState)
    requires
        bijective_state(st),
    ensures
        alpha_vars(b, a, swap_state(st)) == (alpha_vars(a, b, st).0, swap_state(alpha_vars(a, b, st).1)),
        bijective_state(alpha_vars(a, b, st).1),
{
    if st.fwd.contains_key(a) {
        assert(st.bwd.contains_key(st.fwd[a]));
    } else if st.bwd.contains_key(b) {
        assert(st.fwd.contains_key(st.bwd[b]));
    } else {
        let st2 = bind_pair(st, a, b);
        assert forall|x: Seq<char>| #[trigger] st2.fwd.contains_key(x) implies st2.bwd.contains_key(st2.fwd[x]) && st2.bwd[st2.fwd[x]] == x by {
            if x != a {
                assert(st.fwd.contains_key(x));
                assert(st.fwd[x] != b);
            }
        }
        assert forall|y: Seq<char>| #[trigger] st2.bwd.contains_key(y) implies st2.fwd.contains_key(st2.bwd[y]) && st2.fwd[st2.bwd[y]] == y by {
            if y != b {
                assert(st.bwd.contains_key(y));
                assert(st.bwd[y] != a);
            }
        }
        assert(swap_state(st2) == bind_pair(swap_state(st), b, a));
    }
}

proof fn lemma_alpha_sym(t1: STerm, t2: STerm, st: AlphaState)
    requires
        bijective_state(st),
        first_order(t1),
        first_order(t2),
    ensures
        alpha_check(t2, t1, swap_state(st)) == (alpha_check(t1, t2, st).0, swap_state(alpha_check(t1, t2, st).1)),
        bijective_state(alpha_check(t1, t2, st).1),
    decreases t1, 0nat,
{
    match t1 {
        STerm::Var(a) => match t2 {
            STerm::Var(b) => {
                lemma_alpha_vars_sym(a, b, st);
            },
            _ => {},
        },
        STerm::App { op: op1, args: args1 } => match t2 {
            STerm::App { op: op2, args: args2 } => {
                if op1 == op2 && args1.len() == args2.len() {
                    lemma_alpha_sym_list(args1, args2, 0, st);
                }
            },
            _ => {},
        },
        _ => {},
    }
}

proof fn lemma_alpha_sym_list(a1: Seq<STerm>, a2: Seq<STerm>, i: int, st: AlphaState)
    requires
        bijective_state(st),
        a1.len() == a2.len(),
        first_order_list(a1, i),
        first_order_list(a2, i),
    ensures
        alpha_list(a2, a1, i, swap_state(st)) == (alpha_list(a1, a2, i, st).0, swap_state(alpha_list(a1, a2, i, st).1)),
        bijective_state(alpha_list(a1, a2, i, st).1),
    decreases a1, (if 0 <= i < a1.len() { a1.len() - i } else { 0 }) as nat,
{
    if 0 <= i < a1.len() {
        lemma_alpha_sym(a1[i], a2[i], st);
        let r = alpha_check(a1[i], a2[i], st);
        if r.0 {
            lemma_alpha_sym_list(a1, a2, i + 1, r.1);
        }
    }
}

/// Alpha-equivalence of first-order terms (no `let` or `case`) is
/// symmetric. (With binders it is not: the binder of a `let` may rebind a
/// variable that the correspondence already sends elsewhere.)
pub proof fn lemma_alpha_equiv_symmetric(t1: STerm, t2: STerm)
    requires
        first_order(t1),
        first_order(t2),
    ensures
        alpha_equiv(t1, t2) == alpha_equiv(t2, t1),
{
    lemma_alpha_sym(t1, t2, empty_state());
    assert(swap_state(empty_state()) == empty_state());
}


/// A term with each variable `a` that `f` maps replaced by `f[a]`
/// (binders are not looked into).
pub open spec fn rename_vars(t: STerm, f: Map<Seq<char>, Seq<char>>) -> STerm
    decreases t,
{
    match t {
        STerm::Var(a) => if f.contains_key(a) {
            STerm::Var(f[a])
        } else {
            t
        },
        STerm::App { op, args } => STerm::App {
            op,
            args: Seq::new(args.len(), |i: int| if 0 <= i < args.len() { rename_vars(args[i], f) } else { t }),
        },
        _ => t,
    }
}

/// No two names that `f` maps have the same image.
pub open spec fn injective(f: Map<Seq<char>, Seq<char>>) -> bool {
    forall|a: Seq<char>, b: Seq<char>| f.contains_key(a) && f.contains_key(b) && #[trigger] f[a] == #[trigger] f[b] ==> a == b
}

proof fn lemma_submap_trans(f: Map<Seq<char>, Seq<char>>, g: Map<Seq<char>, Seq<char>>, h: Map<Seq<char>, Seq<char>>)
    requires
        f.submap_of(g),
        g.submap_of(h),
    ensures
        f.submap_of(h),
{
    vstd::map_lib::lemma_submap_of_trans(f, g, h);
}

proof fn lemma_alpha_renames(t1: STerm, t2: STerm, st: AlphaState)
    requires
        bijective_state(st),
        first_order(t1),
        first_order(t2),
        alpha_check(t1, t2, st).0,
    ensures
        st.fwd.submap_of(alpha_check(t1, t2, st).1.fwd),
        forall|h: Map<Seq<char>, Seq<char>>| #[trigger] alpha_check(t1, t2, st).1.fwd.submap_of(h) ==> t2 == rename_vars(t1, h),
    decreases t1, 0nat,
{
    let fin = alpha_check(t1, t2, st).1.fwd;
    match t1 {
        STerm::Var(a) => match t2 {
            STerm::Var(b) => {
                if st.fwd.contains_key(a) {
                    assert(fin == st.fwd);
                } else if st.bwd.contains_key(b) {
                    assert(st.fwd.contains_key(st.bwd[b]));
                } else {
                    assert(fin == st.fwd.insert(a, b));
                    assert forall|k: Seq<char>| #[trigger] st.fwd.contains_key(k) implies fin.contains_key(k) && fin[k] == st.fwd[k] by {
                        assert(k != a);
                    }
                }
                assert(fin.contains_key(a) && fin[a] == b);
                assert forall|h: Map<Seq<char>, Seq<char>>| #[trigger] fin.submap_of(h) implies t2 == rename_vars(t1, h) by {
                    assert(h.contains_key(a) && h[a] == fin[a]);
                }
            },
            _ => {},
        },
        STerm::App { op: op1, args: args1 } => match t2 {
            STerm::App { op: op2, args: args2 } => {
                lemma_alpha_renames_list(args1, args2, 0, st);
                assert(fin == alpha_list(args1, args2, 0, st).1.fwd);
                assert forall|h: Map<Seq<char>, Seq<char>>| #[trigger] fin.submap_of(h) implies t2 == rename_vars(t1, h) by {
                    assert forall|j: int| 0 <= j < args2.len() implies #[trigger] rename_vars(t1, h)->args[j] == args2[j] by {
                        assert(args2[j] == rename_vars(args1[j], h));
                    }
                    assert(rename_vars(t1, h)->args =~= args2);
                }
            },
            _ => {},
        },
        _ => {},
    }
}

proof fn lemma_alpha_renames_list(a1: Seq<STerm>, a2: Seq<STerm>, i: int, st: AlphaState)
    requires
        0 <= i,
        bijective_state(st),
        a1.len() == a2.len(),
        first_order_list(a1, i),
        first_order_list(a2, i),
        alpha_list(a1, a2, i, st).0,
    ensures
        st.fwd.submap_of(alpha_list(a1, a2, i, st).1.fwd),
        forall|h: Map<Seq<char>, Seq<char>>, j: int| i <= j < a1.len() && #[trigger] alpha_list(a1, a2, i, st).1.fwd.submap_of(h)
            ==> a2[j] == #[trigger] rename_vars(a1[j], h),
    decreases a1, (if i < a1.len() { a1.len() - i } else { 0 }) as nat,
{
    if i < a1.len() {
        let r = alpha_check(a1[i], a2[i], st);
        lemma_alpha_renames(a1[i], a2[i], st);
        lemma_alpha_sym(a1[i], a2[i], st);
        lemma_alpha_renames_list(a1, a2, i + 1, r.1);
        let fin = alpha_list(a1, a2, i, st).1.fwd;
        assert(fin == alpha_list(a1, a2, i + 1, r.1).1.fwd);
        lemma_submap_trans(st.fwd, r.1.fwd, fin);
        assert forall|h: Map<Seq<char>, Seq<char>>, j: int| i <= j < a1.len() && #[trigger] fin.submap_of(h)
            implies a2[j] == #[trigger] rename_vars(a1[j], h) by {
            if j == i {
                lemma_submap_trans(r.1.fwd, fin, h);
            }
        }
    } else {
        assert(st.fwd.submap_of(st.fwd));
    }
}

/// Two first-order terms are alpha-equivalent only when the second is the
/// first with its variables renamed by an injective map.
pub proof fn lemma_alpha_equiv_is_renaming(t1: STerm, t2: STerm)
    requires
        first_order(t1),
        first_order(t2),
        alpha_equiv(t1, t2),
    ensures
        exists|f: Map<Seq<char>, Seq<char>>| injective(f) && t2 == rename_vars(t1, f),
{
    let st = empty_state();
    assert(bijective_state(st));
    lemma_alpha_sym(t1, t2, st);
    lemma_alpha_renames(t1, t2, st);
    let f = alpha_check(t1, t2, st).1.fwd;
    let g = alpha_check(t1, t2, st).1.bwd;
    assert(f.submap_of(f));
    assert forall|a: Seq<char>, b: Seq<char>| f.contains_key(a) && f.contains_key(b) && #[trigger] f[a] == #[trigger] f[b] implies a == b by {
        assert(g[f[a]] == a);
        assert(g[f[b]] == b);
    }
    assert(injective(f) && t2 == rename_vars(t1, f));
}

} // verus!
