//! Operations on terms: renaming, free variables, substitution, alpha
//! equivalence, pattern matching, and equations.
use vstd::prelude::*;
use vstd::string::*;

use crate::maps::{NameMap, NameSet, RenameMap, Subst, str_eq, entries_map, entry_live, lemma_entries_map_last, lemma_entries_map_live, map_name};
use crate::sort::{CoercionClass, ValueKind};
use crate::term::{CaseBranch, SBranch, STerm, Term, names_view, view_branches, view_terms, lemma_app_view, lemma_case_view};

verus! {

// ---------------------------------------------------------------------------
// Size
// ---------------------------------------------------------------------------

/// Number of nodes of a term model.
pub open spec fn size(t: STerm) -> nat
    decreases t,
{
    match t {
        STerm::Var(_) => 1,
        STerm::Hole { .. } => 1,
        STerm::App { args, .. } => 1 + args_size(args),
        STerm::Case { scrutinee, branches } => 1 + size(*scrutinee) + branches_size(branches),
        STerm::Let { bound, body, .. } => 1 + size(*bound) + size(*body),
    }
}

/// Total size of a list of terms.
pub open spec fn args_size(args: Seq<STerm>) -> nat
    decreases args,
{
    if args.len() == 0 {
        0
    } else {
        size(args[0]) + args_size(args.drop_first())
    }
}

/// Total size of the bodies of a list of branches.
pub open spec fn branches_size(bs: Seq<SBranch>) -> nat
    decreases bs,
{
    if bs.len() == 0 {
        0
    } else {
        size(bs[0].body) + branches_size(bs.drop_first())
    }
}

/// Each argument is no larger than the whole list.
pub proof fn lemma_args_size(args: Seq<STerm>, i: int)
    requires
        0 <= i < args.len(),
    ensures
        size(args[i]) <= args_size(args),
    decreases args.len(),
{
    if i > 0 {
        lemma_args_size(args.drop_first(), i - 1);
    }
}

/// Each branch body is no larger than the whole list.
pub proof fn lemma_branches_size(bs: Seq<SBranch>, i: int)
    requires
        0 <= i < bs.len(),
    ensures
        size(bs[i].body) <= branches_size(bs),
    decreases bs.len(),
{
    if i > 0 {
        lemma_branches_size(bs.drop_first(), i - 1);
    }
}

// ---------------------------------------------------------------------------
// Free variables
// ---------------------------------------------------------------------------

/// The free variables of a term model. Case binders and `let` names
/// shadow the outer scope in their bodies.
pub open spec fn free_vars(t: STerm) -> Set<Seq<char>>
    decreases t,
{
    match t {
        STerm::Var(n) => set![n],
        STerm::Hole { .. } => Set::empty(),
        STerm::App { args, .. } => fv_args(args),
        STerm::Case { scrutinee, branches } => free_vars(*scrutinee).union(fv_branches(branches)),
        STerm::Let { name, bound, body } => free_vars(*bound).union(free_vars(*body).remove(name)),
    }
}

/// The union of the free variables of a list of terms.
pub open spec fn fv_args(args: Seq<STerm>) -> Set<Seq<char>>
    decreases args,
{
    if args.len() == 0 {
        Set::empty()
    } else {
        fv_args(args.drop_last()).union(free_vars(args.last()))
    }
}

/// The free variables of a list of branches: each body's free variables
/// minus that branch's binders.
pub open spec fn fv_branches(bs: Seq<SBranch>) -> Set<Seq<char>>
    decreases bs,
{
    if bs.len() == 0 {
        Set::empty()
    } else {
        fv_branches(bs.drop_last()).union(
            free_vars(bs.last().body).filter(|x: Seq<char>| !bs.last().binders.contains(x)),
        )
    }
}

/// Membership in the free variables of a list of terms.
pub proof fn lemma_fv_args(args: Seq<STerm>, x: Seq<char>)
    ensures
        fv_args(args).contains(x) <==> exists|i: int| 0 <= i < args.len() && #[trigger] free_vars(args[i]).contains(x),
    decreases args.len(),
{
    if args.len() > 0 {
        lemma_fv_args(args.drop_last(), x);
        if fv_args(args).contains(x) && !free_vars(args.last()).contains(x) {
            let i = choose|i: int| 0 <= i < args.drop_last().len() && #[trigger] free_vars(args.drop_last()[i]).contains(x);
            assert(free_vars(args[i]).contains(x));
        }
        if exists|i: int| 0 <= i < args.len() && #[trigger] free_vars(args[i]).contains(x) {
            let i = choose|i: int| 0 <= i < args.len() && #[trigger] free_vars(args[i]).contains(x);
            if i < args.len() - 1 {
                assert(free_vars(args.drop_last()[i]).contains(x));
            }
        }
    }
}

/// Membership in the free variables of a list of branches.
pub proof fn lemma_fv_branches(bs: Seq<SBranch>, x: Seq<char>)
    ensures
        fv_branches(bs).contains(x) <==> exists|i: int|
            0 <= i < bs.len() && #[trigger] free_vars(bs[i].body).contains(x) && !bs[i].binders.contains(x),
    decreases bs.len(),
{
    if bs.len() > 0 {
        lemma_fv_branches(bs.drop_last(), x);
        let last = bs.last();
        if fv_branches(bs).contains(x) && !(free_vars(last.body).contains(x) && !last.binders.contains(x)) {
            let i = choose|i: int|
                0 <= i < bs.drop_last().len() && #[trigger] free_vars(bs.drop_last()[i].body).contains(x)
                    && !bs.drop_last()[i].binders.contains(x);
            assert(free_vars(bs[i].body).contains(x));
        }
        if exists|i: int| 0 <= i < bs.len() && #[trigger] free_vars(bs[i].body).contains(x) && !bs[i].binders.contains(x) {
            let i = choose|i: int| 0 <= i < bs.len() && #[trigger] free_vars(bs[i].body).contains(x) && !bs[i].binders.contains(x);
            if i < bs.len() - 1 {
                assert(free_vars(bs.drop_last()[i].body).contains(x));
            }
        }
    }
}

// ---------------------------------------------------------------------------
// Operation renaming
// ---------------------------------------------------------------------------

/// Rename every operation (and case-branch constructor) through `m`.
pub open spec fn rename_ops_spec(t: STerm, m: Map<Seq<char>, Seq<char>>) -> STerm
    decreases t,
{
    match t {
        STerm::Var(_) => t,
        STerm::Hole { .. } => t,
        STerm::App { op, args } => STerm::App {
            op: map_name(m, op),
            args: Seq::new(
                args.len(),
                |i: int|
                    if 0 <= i < args.len() {
                        rename_ops_spec(args[i], m)
                    } else {
                        STerm::Var(Seq::empty())
                    },
            ),
        },
        STerm::Case { scrutinee, branches } => STerm::Case {
            scrutinee: Box::new(rename_ops_spec(*scrutinee, m)),
            branches: Seq::new(
                branches.len(),
                |i: int|
                    if 0 <= i < branches.len() {
                        SBranch {
                            constructor: map_name(m, branches[i].constructor),
                            binders: branches[i].binders,
                            body: rename_ops_spec(branches[i].body, m),
                        }
                    } else {
                        SBranch {
                            constructor: Seq::empty(),
                            binders: Seq::empty(),
                            body: STerm::Var(Seq::empty()),
                        }
                    },
            ),
        },
        STerm::Let { name, bound, body } => STerm::Let {
            name,
            bound: Box::new(rename_ops_spec(*bound, m)),
            body: Box::new(rename_ops_spec(*body, m)),
        },
    }
}

/// Rename operations in every term of a list.
pub fn rename_ops_terms(args: &Vec<Term>, op_map: &RenameMap) -> (r: Vec<Term>)
    ensures
        r@.len() == args@.len(),
        forall|j: int| 0 <= j < args@.len() ==> #[trigger] r@[j]@ == rename_ops_spec(args@[j]@, op_map@),
    decreases args,
{
    let mut new_args: Vec<Term> = Vec::new();
    let mut i: usize = 0;
    while i < args.len()
        invariant
            i <= args@.len(),
            new_args@.len() == i,
            forall|j: int| 0 <= j < i ==> #[trigger] new_args@[j]@ == rename_ops_spec(args@[j]@, op_map@),
        decreases args@.len() - i,
    {
        proof {
            assert(decreases_to!(args => args@[i as int]));
        }
        new_args.push(args[i].rename_ops(op_map));
        i = i + 1;
    }
    new_args
}

/// Rename operations and constructors in every branch of a list.
pub fn rename_ops_branches(branches: &Vec<CaseBranch>, op_map: &RenameMap) -> (r: Vec<CaseBranch>)
    ensures
        r@.len() == branches@.len(),
        forall|j: int| 0 <= j < branches@.len() ==> #[trigger] r@[j]@ == (SBranch {
            constructor: map_name(op_map@, branches@[j]@.constructor),
            binders: branches@[j]@.binders,
            body: rename_ops_spec(branches@[j]@.body, op_map@),
        }),
    decreases branches,
{
    let mut bs: Vec<CaseBranch> = Vec::new();
    let mut i: usize = 0;
    while i < branches.len()
        invariant
            i <= branches@.len(),
            bs@.len() == i,
            forall|j: int| 0 <= j < i ==> #[trigger] bs@[j]@ == (SBranch {
                constructor: map_name(op_map@, branches@[j]@.constructor),
                binders: branches@[j]@.binders,
                body: rename_ops_spec(branches@[j]@.body, op_map@),
            }),
        decreases branches@.len() - i,
    {
        proof {
            assert(decreases_to!(branches => branches@[i as int]));
        }
        let b = &branches[i];
        let nb = CaseBranch {
            constructor: op_map.lookup_or_same(&b.constructor),
            binders: crate::term::clone_names(&b.binders),
            body: b.body.rename_ops(op_map),
        };
        bs.push(nb);
        i = i + 1;
    }
    bs
}

/// The free variables of a list of terms.
pub fn free_vars_terms(args: &Vec<Term>) -> (r: NameSet)
    ensures
        r.wf(),
        r.view() == fv_args(view_terms(args@)),
    decreases args,
{
    let mut r = NameSet::new();
    let mut i: usize = 0;
    while i < args.len()
        invariant
            i <= args@.len(),
            r.wf(),
            r.view() == fv_args(view_terms(args@.take(i as int))),
        decreases args@.len() - i,
    {
        proof {
            assert(decreases_to!(args => args@[i as int]));
        }
        let fa = args[i].free_vars();
        r.extend(&fa);
        proof {
            let prev = view_terms(args@.take(i as int));
            let next = view_terms(args@.take(i + 1));
            assert(prev.len() == i as int);
            assert(next =~= prev.push(args@[i as int]@));
            assert(next.drop_last() =~= prev);
            assert(next.last() == args@[i as int]@);
            assert(r.view() =~= fv_args(next));
        }
        i = i + 1;
    }
    assert(args@.take(args@.len() as int) =~= args@);
    r
}

/// The free variables of a list of branches.
pub fn free_vars_branches(branches: &Vec<CaseBranch>) -> (r: NameSet)
    ensures
        r.wf(),
        r.view() == fv_branches(view_branches(branches@)),
    decreases branches,
{
    let mut r = NameSet::new();
    let mut i: usize = 0;
    while i < branches.len()
        invariant
            i <= branches@.len(),
            r.wf(),
            r.view() == fv_branches(view_branches(branches@.take(i as int))),
        decreases branches@.len() - i,
    {
        proof {
            assert(decreases_to!(branches => branches@[i as int]));
        }
        let b = &branches[i];
        let mut local = b.body.free_vars();
        let mut k: usize = 0;
        while k < b.binders.len()
            invariant
                k <= b.binders@.len(),
                local.wf(),
                local.view() == free_vars(b.body@).filter(
                    |x: Seq<char>| !names_view(b.binders@).take(k as int).contains(x),
                ),
            decreases b.binders@.len() - k,
        {
            local.remove(b.binders[k].as_str());
            proof {
                let bv = names_view(b.binders@);
                assert forall|x: Seq<char>| #[trigger] bv.take(k + 1).contains(x) == (bv.take(k as int).contains(x) || x == b.binders@[k as int]@) by {
                    if bv.take(k + 1).contains(x) {
                        let q = choose|q: int| 0 <= q < k + 1 && #[trigger] bv.take(k + 1)[q] == x;
                        if q < k {
                            assert(bv.take(k as int)[q] == x);
                        }
                    }
                    if bv.take(k as int).contains(x) {
                        let q = choose|q: int| 0 <= q < k && #[trigger] bv.take(k as int)[q] == x;
                        assert(bv.take(k + 1)[q] == x);
                    }
                    if x == b.binders@[k as int]@ {
                        assert(bv.take(k + 1)[k as int] == x);
                    }
                }
                assert(local.view() =~= free_vars(b.body@).filter(
                    |x: Seq<char>| !names_view(b.binders@).take(k + 1).contains(x),
                ));
            }
            k = k + 1;
        }
        proof {
            assert(names_view(b.binders@).take(b.binders@.len() as int) =~= names_view(b.binders@));
        }
        r.extend(&local);
        proof {
            let prev = view_branches(branches@.take(i as int));
            let next = view_branches(branches@.take(i + 1));
            assert(prev.len() == i as int);
            assert(next =~= prev.push(branches@[i as int]@));
            assert(branches@[i as int]@.binders == names_view(b.binders@));
            assert(branches@[i as int]@.body == b.body@);
            assert(next.drop_last() =~= prev);
            assert(next.last() == branches@[i as int]@);
            assert(r.view() =~= fv_branches(next));
        }
        i = i + 1;
    }
    assert(branches@.take(branches@.len() as int) =~= branches@);
    r
}

impl Term {
    /// Apply an operation renaming to this term. Case-branch constructors
    /// are renamed too; binders and variables are untouched.
    pub fn rename_ops(&self, op_map: &RenameMap) -> (r: Term)
        ensures
            r@ == rename_ops_spec(self@, op_map@),
        decreases self,
    {
        match self {
            Term::Var(n) => Term::Var(n.clone()),
            Term::Hole { name } => Term::Hole { name: crate::term::clone_opt_name(name) },
            Term::App { op, args } => {
                let new_args = rename_ops_terms(args, op_map);
                let r = Term::App { op: op_map.lookup_or_same(op), args: new_args };
                proof {
                    lemma_app_view(r);
                    lemma_app_view(*self);
                    assert(r@->args =~= rename_ops_spec(self@, op_map@)->args);
                }
                r
            },
            Term::Case { scrutinee, branches } => {
                let s = scrutinee.rename_ops(op_map);
                let bs = rename_ops_branches(branches, op_map);
                let r = Term::Case { scrutinee: Box::new(s), branches: bs };
                proof {
                    lemma_case_view(r);
                    lemma_case_view(*self);
                    assert(r@->branches =~= rename_ops_spec(self@, op_map@)->branches);
                }
                r
            },
            Term::Let { name, bound, body } => Term::Let {
                name: name.clone(),
                bound: Box::new(bound.rename_ops(op_map)),
                body: Box::new(body.rename_ops(op_map)),
            },
        }
    }

    /// Collect all free variables in this term.
    pub fn free_vars(&self) -> (r: NameSet)
        ensures
            r.wf(),
            r.view() == free_vars(self@),
        decreases self,
    {
        match self {
            Term::Var(n) => {
                let mut r = NameSet::new();
                r.insert(n.clone());
                proof {
                    assert(r.view() =~= free_vars(self@));
                }
                r
            },
            Term::Hole { .. } => {
                let r = NameSet::new();
                proof {
                    assert(r.view() =~= free_vars(self@));
                }
                r
            },
            Term::App { args, .. } => {
                proof {
                    lemma_app_view(*self);
                }
                free_vars_terms(args)
            },
            Term::Case { scrutinee, branches } => {
                proof {
                    lemma_case_view(*self);
                }
                let mut r = scrutinee.free_vars();
                let bs = free_vars_branches(branches);
                r.extend(&bs);
                r
            },
            Term::Let { name, bound, body } => {
                let mut r = bound.free_vars();
                let mut local = body.free_vars();
                local.remove(name.as_str());
                r.extend(&local);
                r
            },
        }
    }
}

// ---------------------------------------------------------------------------
// Substitution
// ---------------------------------------------------------------------------

/// `k` prime characters.
pub open spec fn primes(k: nat) -> Seq<char>
    decreases k,
{
    if k == 0 {
        Seq::empty()
    } else {
        primes((k - 1) as nat).push('\'')
    }
}

/// `k` is the least positive number of primes that takes `base` outside
/// `avoid`.
pub open spec fn fresh_ok(base: Seq<char>, avoid: Set<Seq<char>>, k: nat) -> bool {
    &&& k >= 1
    &&& !avoid.contains(base + primes(k))
    &&& forall|j: nat| 1 <= j < k ==> avoid.contains(#[trigger] (base + primes(j)))
}

/// `base` followed by the fewest primes (at least one) that yield a name
/// outside `avoid`.
pub open spec fn fresh_binder(base: Seq<char>, avoid: Set<Seq<char>>) -> Seq<char> {
    base + primes(choose|k: nat| fresh_ok(base, avoid, k))
}

/// The free variables of the images of the keys of `s` that occur in
/// `body_free`.
pub open spec fn image_free_vars(s: Map<Seq<char>, STerm>, body_free: Set<Seq<char>>) -> Set<Seq<char>> {
    Set::new(
        |x: Seq<char>|
            exists|k: Seq<char>| s.contains_key(k) && body_free.contains(k) && #[trigger] free_vars(s[k]).contains(x),
    )
}

/// Every value of the map is a variable.
pub open spec fn is_var_map(s: Map<Seq<char>, STerm>) -> bool {
    forall|k: Seq<char>| s.contains_key(k) ==> (#[trigger] s[k]) is Var
}

/// The set of names of a sequence.
pub open spec fn seq_names_set(bs: Seq<Seq<char>>) -> Set<Seq<char>> {
    Set::new(|x: Seq<char>| bs.contains(x))
}

/// Capture-avoiding substitution, with a budget of `fuel` nested steps
/// (any budget of at least the term's size is never exhausted).
///
/// Under a `let` or a case branch the binder shadows the outer scope, so
/// its binding is dropped from the substitution; a binder that would
/// capture a free variable of the substitution's image is first renamed
/// to [`fresh_binder`].
pub open spec fn subst_fuel(t: STerm, s: Map<Seq<char>, STerm>, fuel: nat) -> STerm
    decreases fuel, 0nat, 0nat,
{
    if fuel == 0 {
        t
    } else {
        match t {
            STerm::Var(n) => if s.contains_key(n) {
                s[n]
            } else {
                t
            },
            STerm::Hole { .. } => t,
            STerm::App { op, args } => STerm::App {
                op,
                args: Seq::new(args.len(), |i: int| subst_fuel(args[i], s, (fuel - 1) as nat)),
            },
            STerm::Case { scrutinee, branches } => STerm::Case {
                scrutinee: Box::new(subst_fuel(*scrutinee, s, (fuel - 1) as nat)),
                branches: Seq::new(
                    branches.len(),
                    |i: int| subst_branch(branches[i], s, (fuel - 1) as nat),
                ),
            },
            STerm::Let { name, bound, body } => {
                let inner = s.remove(name);
                let body_free = free_vars(*body);
                let image = image_free_vars(inner, body_free);
                let new_bound = subst_fuel(*bound, s, (fuel - 1) as nat);
                if image.contains(name) {
                    let avoid = image.union(body_free).insert(name);
                    let fresh = fresh_binder(name, avoid);
                    let renamed = subst_fuel(
                        *body,
                        Map::empty().insert(name, STerm::Var(fresh)),
                        (fuel - 1) as nat,
                    );
                    STerm::Let {
                        name: fresh,
                        bound: Box::new(new_bound),
                        body: Box::new(subst_fuel(renamed, inner, (fuel - 1) as nat)),
                    }
                } else {
                    STerm::Let {
                        name,
                        bound: Box::new(new_bound),
                        body: Box::new(subst_fuel(*body, inner, (fuel - 1) as nat)),
                    }
                }
            },
        }
    }
}

/// Substitution inside one case branch: binders are dropped from the
/// substitution, and each binder that would capture a free variable of
/// the substitution's image (and is not shadowed by a later binder of the
/// same branch) is renamed apart first.
pub open spec fn subst_branch(b: SBranch, s: Map<Seq<char>, STerm>, fuel: nat) -> SBranch
    decreases fuel, 2nat, 0nat,
{
    let bset = seq_names_set(b.binders);
    let inner = s.remove_keys(bset);
    let body_free = free_vars(b.body);
    let image = image_free_vars(inner, body_free);
    let avoid = image.union(body_free).union(bset);
    let r = rename_binders(b.binders, 0, b.body, avoid, image, fuel);
    SBranch { constructor: b.constructor, binders: r.0, body: subst_fuel(r.1, inner, fuel) }
}

/// The binder-renaming pass of [`subst_branch`] from position `pos` on:
/// the renamed binders from `pos` and the body after the renamings.
pub open spec fn rename_binders(
    bs: Seq<Seq<char>>,
    pos: int,
    body: STerm,
    avoid: Set<Seq<char>>,
    image: Set<Seq<char>>,
    fuel: nat,
) -> (Seq<Seq<char>>, STerm)
    decreases fuel, 1nat, (if pos < 0 { 0 } else { bs.len() - pos }) as nat,
{
    if pos < 0 || pos >= bs.len() {
        (Seq::empty(), body)
    } else {
        let binder = bs[pos];
        if bs.subrange(pos + 1, bs.len() as int).contains(binder) || !image.contains(binder) {
            let r = rename_binders(bs, pos + 1, body, avoid, image, fuel);
            (seq![binder] + r.0, r.1)
        } else {
            let fresh = fresh_binder(binder, avoid);
            let body2 = subst_fuel(body, Map::empty().insert(binder, STerm::Var(fresh)), fuel);
            let r = rename_binders(bs, pos + 1, body2, avoid.insert(fresh), image, fuel);
            (seq![fresh] + r.0, r.1)
        }
    }
}

/// Capture-avoiding substitution of `s` into `t`.
pub open spec fn subst(t: STerm, s: Map<Seq<char>, STerm>) -> STerm {
    subst_fuel(t, s, size(t))
}

/// Two fresh-name witnesses coincide.
proof fn lemma_fresh_ok_unique(base: Seq<char>, avoid: Set<Seq<char>>, k1: nat, k2: nat)
    requires
        fresh_ok(base, avoid, k1),
        fresh_ok(base, avoid, k2),
    ensures
        k1 == k2,
{
    if k1 < k2 {
        assert(avoid.contains(base + primes(k1)));
    }
    if k2 < k1 {
        assert(avoid.contains(base + primes(k2)));
    }
}

/// `primes(k)` has length `k`.
proof fn lemma_primes_len(k: nat)
    ensures
        primes(k).len() == k,
    decreases k,
{
    if k > 0 {
        lemma_primes_len((k - 1) as nat);
    }
}

/// Derive a binder name outside `avoid` by appending primes to `base`.
fn fresh_binder_exec(base: &String, avoid: &NameSet) -> (r: String)
    requires
        avoid.wf(),
    ensures
        r@ == fresh_binder(base@, avoid.view()),
{
    let mut maxlen: usize = 0;
    let mut i: usize = 0;
    while i < avoid.size()
        invariant
            i <= avoid.spec_size(),
            forall|j: int| 0 <= j < i ==> (#[trigger] avoid.spec_at(j)).len() <= maxlen,
        decreases avoid.spec_size() - i,
    {
        let l = avoid.at(i).as_str().unicode_len();
        if l > maxlen {
            maxlen = l;
        }
        i = i + 1;
    }
    proof {
        avoid.lemma_positions();
    }
    let mut candidate = base.clone();
    proof {
        reveal_strlit("'");
        assert(primes(0) =~= Seq::<char>::empty());
        assert(primes(1) =~= seq!['\'']);
    }
    candidate.append("'");
    let ghost mut k: nat = 1;
    proof {
        assert(candidate@ =~= base@ + primes(1));
    }
    while avoid.contains(candidate.as_str())
        invariant
            k >= 1,
            candidate@ == base@ + primes(k),
            forall|j: nat| 1 <= j < k ==> avoid.view().contains(#[trigger] (base@ + primes(j))),
            forall|x: Seq<char>| avoid.view().contains(x) ==> x.len() <= maxlen,
        decreases (maxlen as int) + 1 - candidate@.len(),
    {
        proof {
            reveal_strlit("'");
            lemma_primes_len(k);
        }
        candidate.append("'");
        proof {
            assert(candidate@ =~= base@ + primes(k + 1));
            assert forall|j: nat| 1 <= j < k + 1 implies avoid.view().contains(#[trigger] (base@ + primes(j))) by {
                if j == k {
                }
            }
            k = k + 1;
        }
    }
    proof {
        assert(fresh_ok(base@, avoid.view(), k));
        let c = choose|c: nat| fresh_ok(base@, avoid.view(), c);
        lemma_fresh_ok_unique(base@, avoid.view(), k, c);
    }
    candidate
}

/// The free variables contributed by the live entries among the first `n`
/// whose keys lie in `bf`.
pub open spec fn live_image(es: Seq<(String, Term)>, bf: Set<Seq<char>>, n: int) -> Set<Seq<char>> {
    Set::new(
        |x: Seq<char>|
            exists|j: int|
                0 <= j < n && entry_live(es, j) && bf.contains(es[j].0@) && #[trigger] free_vars(es[j].1@).contains(x),
    )
}

/// The free variables of the images of the keys of `inner` that occur in
/// `body_free`.
fn image_free_vars_exec(inner: &Subst, body_free: &NameSet) -> (r: NameSet)
    ensures
        r.wf(),
        r.view() == image_free_vars(inner@, body_free.view()),
{
    let mut r = NameSet::new();
    let mut i: usize = 0;
    let ghost es = inner.entries@;
    let ghost bf = body_free.view();
    while i < inner.len()
        invariant
            es == inner.entries@,
            bf == body_free.view(),
            i <= es.len(),
            r.wf(),
            r.view() == live_image(es, bf, i as int),
        decreases es.len() - i,
    {
        if inner.is_live(i) && body_free.contains(inner.entries[i].0.as_str()) {
            let fv = inner.entries[i].1.free_vars();
            r.extend(&fv);
            proof {
                assert forall|x: Seq<char>| #[trigger] r.view().contains(x) == live_image(es, bf, i + 1).contains(x) by {
                    if r.view().contains(x) && !fv.view().contains(x) {
                        let j = choose|j: int| 0 <= j < i && entry_live(es, j) && bf.contains(es[j].0@) && #[trigger] free_vars(es[j].1@).contains(x);
                        assert(live_image(es, bf, i + 1).contains(x));
                    }
                    if fv.view().contains(x) {
                        assert(free_vars(es[i as int].1@).contains(x));
                        assert(live_image(es, bf, i + 1).contains(x));
                    }
                    if live_image(es, bf, i + 1).contains(x) {
                        let j = choose|j: int| 0 <= j < i + 1 && entry_live(es, j) && bf.contains(es[j].0@) && #[trigger] free_vars(es[j].1@).contains(x);
                        if j < i {
                            assert(live_image(es, bf, i as int).contains(x));
                        }
                    }
                }
                assert(r.view() =~= live_image(es, bf, i + 1));
            }
        } else {
            proof {
                assert forall|x: Seq<char>| #[trigger] r.view().contains(x) == live_image(es, bf, i + 1).contains(x) by {
                    if live_image(es, bf, i + 1).contains(x) {
                        let j = choose|j: int| 0 <= j < i + 1 && entry_live(es, j) && bf.contains(es[j].0@) && #[trigger] free_vars(es[j].1@).contains(x);
                        if j < i {
                            assert(live_image(es, bf, i as int).contains(x));
                        }
                    }
                    if r.view().contains(x) {
                        let j = choose|j: int| 0 <= j < i && entry_live(es, j) && bf.contains(es[j].0@) && #[trigger] free_vars(es[j].1@).contains(x);
                        assert(live_image(es, bf, i + 1).contains(x));
                    }
                }
                assert(r.view() =~= live_image(es, bf, i + 1));
            }
        }
        i = i + 1;
    }
    proof {
        let tgt = image_free_vars(inner@, bf);
        assert forall|x: Seq<char>| #[trigger] r.view().contains(x) == tgt.contains(x) by {
            if r.view().contains(x) {
                let j = choose|j: int| 0 <= j < es.len() && entry_live(es, j) && bf.contains(es[j].0@) && #[trigger] free_vars(es[j].1@).contains(x);
                lemma_entries_map_last(es, j, es[j].0@);
                assert(inner@.contains_key(es[j].0@) && bf.contains(es[j].0@) && free_vars(inner@[es[j].0@]).contains(x));
            }
            if tgt.contains(x) {
                let k = choose|k: Seq<char>| inner@.contains_key(k) && bf.contains(k) && #[trigger] free_vars(inner@[k]).contains(x);
                lemma_entries_map_live(es, k);
                let j = choose|j: int| 0 <= j < es.len() && #[trigger] es[j].0@ == k && entry_live(es, j);
                lemma_entries_map_last(es, j, k);
                assert(free_vars(es[j].1@).contains(x));
                assert(live_image(es, bf, es.len() as int).contains(x));
            }
        }
        assert(r.view() =~= tgt);
    }
    r
}

/// Lists with pointwise equal sizes have equal total size.
proof fn lemma_args_size_eq(a: Seq<STerm>, b: Seq<STerm>)
    requires
        a.len() == b.len(),
        forall|i: int| 0 <= i < a.len() ==> size(#[trigger] a[i]) == size(b[i]),
    ensures
        args_size(a) == args_size(b),
    decreases a.len(),
{
    if a.len() > 0 {
        assert forall|i: int| 0 <= i < a.drop_first().len() implies size(#[trigger] a.drop_first()[i]) == size(b.drop_first()[i]) by {
            assert(a.drop_first()[i] == a[i + 1]);
            assert(b.drop_first()[i] == b[i + 1]);
        }
        lemma_args_size_eq(a.drop_first(), b.drop_first());
        assert(size(a[0]) == size(b[0]));
    }
}

/// Branch lists with pointwise equal body sizes have equal total size.
proof fn lemma_branches_size_eq(a: Seq<SBranch>, b: Seq<SBranch>)
    requires
        a.len() == b.len(),
        forall|i: int| 0 <= i < a.len() ==> size((#[trigger] a[i]).body) == size(b[i].body),
    ensures
        branches_size(a) == branches_size(b),
    decreases a.len(),
{
    if a.len() > 0 {
        assert forall|i: int| 0 <= i < a.drop_first().len() implies size((#[trigger] a.drop_first()[i]).body) == size(b.drop_first()[i].body) by {
            assert(a.drop_first()[i] == a[i + 1]);
            assert(b.drop_first()[i] == b[i + 1]);
        }
        lemma_branches_size_eq(a.drop_first(), b.drop_first());
        assert(size(a[0].body) == size(b[0].body));
    }
}

/// A one-binding renaming to a variable is a variable map.
proof fn lemma_single_var_map(n: Seq<char>, f: Seq<char>)
    ensures
        is_var_map(Map::empty().insert(n, STerm::Var(f))),
{
}

/// Removing keys keeps a variable map a variable map.
proof fn lemma_var_map_remove_keys(s: Map<Seq<char>, STerm>, ks: Set<Seq<char>>)
    requires
        is_var_map(s),
    ensures
        is_var_map(s.remove_keys(ks)),
        is_var_map(s.remove(ks.choose())),
{
    assert forall|k: Seq<char>| s.remove_keys(ks).contains_key(k) implies (#[trigger] s.remove_keys(ks)[k]) is Var by {
        assert(s.contains_key(k));
    }
    assert forall|k: Seq<char>| s.remove(ks.choose()).contains_key(k) implies (#[trigger] s.remove(ks.choose())[k]) is Var by {
        assert(s.contains_key(k));
    }
}

/// Removing one key keeps a variable map a variable map.
proof fn lemma_var_map_remove(s: Map<Seq<char>, STerm>, k: Seq<char>)
    requires
        is_var_map(s),
    ensures
        is_var_map(s.remove(k)),
{
    assert forall|x: Seq<char>| s.remove(k).contains_key(x) implies (#[trigger] s.remove(k)[x]) is Var by {
        assert(s.contains_key(x));
    }
}

/// A copy of a name set.
fn copy_name_set(a: &NameSet) -> (r: NameSet)
    ensures
        r.wf(),
        r.view() == a.view(),
{
    let mut r = NameSet::new();
    r.extend(a);
    assert(r.view() =~= a.view());
    r
}

/// Substitution with an explicit nesting budget.
fn subst_term(t: &Term, s: &Subst, Ghost(fuel): Ghost<nat>) -> (r: Term)
    requires
        fuel >= size(t@),
    ensures
        r@ == subst_fuel(t@, s@, fuel),
        is_var_map(s@) ==> size(r@) == size(t@),
    decreases fuel, 0nat,
{
    match t {
        Term::Var(n) => {
            match s.get(n) {
                Some(v) => v.deep_copy(),
                None => Term::Var(n.clone()),
            }
        },
        Term::Hole { name } => Term::Hole { name: crate::term::clone_opt_name(name) },
        Term::App { op, args } => {
            proof {
                lemma_app_view(*t);
            }
            let ghost av = view_terms(args@);
            let mut new_args: Vec<Term> = Vec::new();
            let mut i: usize = 0;
            while i < args.len()
                invariant
                    av == view_terms(args@),
                    fuel >= 1 + args_size(av),
                    i <= args@.len(),
                    new_args@.len() == i,
                    forall|j: int| 0 <= j < i ==> #[trigger] new_args@[j]@ == subst_fuel(args@[j]@, s@, (fuel - 1) as nat),
                    forall|j: int| 0 <= j < i ==> is_var_map(s@) ==> size(#[trigger] new_args@[j]@) == size(args@[j]@),
                decreases args@.len() - i,
            {
                proof {
                    lemma_args_size(av, i as int);
                    assert(av[i as int] == args@[i as int]@);
                }
                let a = subst_term(&args[i], s, Ghost((fuel - 1) as nat));
                new_args.push(a);
                i = i + 1;
            }
            let r = Term::App { op: op.clone(), args: new_args };
            proof {
                lemma_app_view(r);
                assert(r@->args =~= subst_fuel(t@, s@, fuel)->args);
                if is_var_map(s@) {
                    lemma_args_size_eq(r@->args, av);
                }
            }
            r
        },
        Term::Case { scrutinee, branches } => {
            proof {
                lemma_case_view(*t);
            }
            let ghost bv = view_branches(branches@);
            let new_s = subst_term(scrutinee, s, Ghost((fuel - 1) as nat));
            let mut bs: Vec<CaseBranch> = Vec::new();
            let mut i: usize = 0;
            while i < branches.len()
                invariant
                    bv == view_branches(branches@),
                    fuel >= 1 + size((*scrutinee)@) + branches_size(bv),
                    i <= branches@.len(),
                    bs@.len() == i,
                    forall|j: int| 0 <= j < i ==> #[trigger] bs@[j]@ == subst_branch(branches@[j]@, s@, (fuel - 1) as nat),
                    forall|j: int| 0 <= j < i ==> is_var_map(s@) ==> size((#[trigger] bs@[j]@).body) == size(branches@[j]@.body),
                decreases branches@.len() - i,
            {
                proof {
                    lemma_branches_size(bv, i as int);
                    assert(bv[i as int] == branches@[i as int]@);
                }
                let b = subst_case_branch(&branches[i], s, Ghost((fuel - 1) as nat));
                bs.push(b);
                i = i + 1;
            }
            let r = Term::Case { scrutinee: Box::new(new_s), branches: bs };
            proof {
                lemma_case_view(r);
                assert(r@->branches =~= subst_fuel(t@, s@, fuel)->branches);
                if is_var_map(s@) {
                    lemma_branches_size_eq(r@->branches, bv);
                }
            }
            r
        },
        Term::Let { name, bound, body } => {
            let new_bound = subst_term(bound, s, Ghost((fuel - 1) as nat));
            let mut inner = s.deep_copy();
            inner.remove(name);
            let body_free = body.free_vars();
            let image = image_free_vars_exec(&inner, &body_free);
            proof {
                if is_var_map(s@) {
                    lemma_var_map_remove(s@, name@);
                }
            }
            if image.contains(name.as_str()) {
                let mut avoid = copy_name_set(&image);
                avoid.extend(&body_free);
                avoid.insert(name.clone());
                let fresh = fresh_binder_exec(name, &avoid);
                let mut rename = Subst::new();
                rename.insert(name.clone(), Term::Var(fresh.clone()));
                proof {
                    lemma_single_var_map(name@, fresh@);
                    assert(rename@ == Map::<Seq<char>, STerm>::empty().insert(name@, STerm::Var(fresh@)));
                }
                let renamed = subst_term(body, &rename, Ghost((fuel - 1) as nat));
                let new_body = subst_term(&renamed, &inner, Ghost((fuel - 1) as nat));
                Term::Let { name: fresh, bound: Box::new(new_bound), body: Box::new(new_body) }
            } else {
                let new_body = subst_term(body, &inner, Ghost((fuel - 1) as nat));
                Term::Let { name: name.clone(), bound: Box::new(new_bound), body: Box::new(new_body) }
            }
        },
    }
}

/// Substitution inside one case branch.
fn subst_case_branch(b: &CaseBranch, s: &Subst, Ghost(fuel): Ghost<nat>) -> (r: CaseBranch)
    requires
        fuel >= size(b.body@),
    ensures
        r@ == subst_branch(b@, s@, fuel),
        is_var_map(s@) ==> size(r@.body) == size(b@.body),
    decreases fuel, 1nat,
{
    let ghost bv = names_view(b.binders@);
    let ghost bset = seq_names_set(bv);
    // Binders shadow the outer scope: drop their bindings.
    let mut inner = s.deep_copy();
    let mut k: usize = 0;
    while k < b.binders.len()
        invariant
            bv == names_view(b.binders@),
            k <= b.binders@.len(),
            inner@ == s@.remove_keys(seq_names_set(bv.take(k as int))),
        decreases b.binders@.len() - k,
    {
        inner.remove(&b.binders[k]);
        proof {
            assert(seq_names_set(bv.take(k + 1)) =~= seq_names_set(bv.take(k as int)).insert(b.binders@[k as int]@)) by {
                assert forall|x: Seq<char>| #[trigger] bv.take(k + 1).contains(x) == (bv.take(k as int).contains(x) || x == b.binders@[k as int]@) by {
                    if bv.take(k + 1).contains(x) {
                        let q = choose|q: int| 0 <= q < k + 1 && #[trigger] bv.take(k + 1)[q] == x;
                        if q < k {
                            assert(bv.take(k as int)[q] == x);
                        }
                    }
                    if bv.take(k as int).contains(x) {
                        let q = choose|q: int| 0 <= q < k && #[trigger] bv.take(k as int)[q] == x;
                        assert(bv.take(k + 1)[q] == x);
                    }
                    if x == b.binders@[k as int]@ {
                        assert(bv.take(k + 1)[k as int] == x);
                    }
                }
            }
            assert(inner@ =~= s@.remove_keys(seq_names_set(bv.take(k + 1))));
        }
        k = k + 1;
    }
    proof {
        assert(bv.take(bv.len() as int) =~= bv);
        if is_var_map(s@) {
            lemma_var_map_remove_keys(s@, bset);
        }
    }
    let body_free = b.body.free_vars();
    let image = image_free_vars_exec(&inner, &body_free);
    let mut avoid = copy_name_set(&image);
    avoid.extend(&body_free);
    let mut k: usize = 0;
    while k < b.binders.len()
        invariant
            bv == names_view(b.binders@),
            bset == seq_names_set(bv),
            k <= b.binders@.len(),
            avoid.wf(),
            avoid.view() == image.view().union(body_free.view()).union(seq_names_set(bv.take(k as int))),
        decreases b.binders@.len() - k,
    {
        avoid.insert(b.binders[k].clone());
        proof {
            assert(seq_names_set(bv.take(k + 1)) =~= seq_names_set(bv.take(k as int)).insert(b.binders@[k as int]@)) by {
                assert forall|x: Seq<char>| #[trigger] bv.take(k + 1).contains(x) == (bv.take(k as int).contains(x) || x == b.binders@[k as int]@) by {
                    if bv.take(k + 1).contains(x) {
                        let q = choose|q: int| 0 <= q < k + 1 && #[trigger] bv.take(k + 1)[q] == x;
                        if q < k {
                            assert(bv.take(k as int)[q] == x);
                        }
                    }
                    if bv.take(k as int).contains(x) {
                        let q = choose|q: int| 0 <= q < k && #[trigger] bv.take(k as int)[q] == x;
                        assert(bv.take(k + 1)[q] == x);
                    }
                    if x == b.binders@[k as int]@ {
                        assert(bv.take(k + 1)[k as int] == x);
                    }
                }
            }
            assert(avoid.view() =~= image.view().union(body_free.view()).union(seq_names_set(bv.take(k + 1))));
        }
        k = k + 1;
    }
    proof {
        assert(bv.take(bv.len() as int) =~= bv);
    }
    let ghost avoid0 = avoid.view();
    let ghost img = image.view();
    let mut out: Vec<String> = Vec::new();
    let mut body = b.body.deep_copy();
    let mut pos: usize = 0;
    while pos < b.binders.len()
        invariant
            bv == names_view(b.binders@),
            img == image.view(),
            pos <= b.binders@.len(),
            avoid.wf(),
            fuel >= size(body@),
            is_var_map(s@) ==> size(body@) == size(b.body@),
            size(body@) == size(b.body@),
            rename_binders(bv, 0, b.body@, avoid0, img, fuel) == (
                names_view(out@) + rename_binders(bv, pos as int, body@, avoid.view(), img, fuel).0,
                rename_binders(bv, pos as int, body@, avoid.view(), img, fuel).1,
            ),
        decreases b.binders@.len() - pos,
    {
        let binder = &b.binders[pos];
        let mut shadowed_later = false;
        let mut q: usize = pos + 1;
        while q < b.binders.len()
            invariant
                pos < q <= b.binders@.len(),
                bv == names_view(b.binders@),
                binder@ == bv[pos as int],
                shadowed_later == exists|w: int| pos < w < q && #[trigger] bv[w] == bv[pos as int],
            decreases b.binders@.len() - q,
        {
            proof {
                assert(bv[q as int] == b.binders@[q as int]@);
                assert(bv[pos as int] == b.binders@[pos as int]@);
            }
            if str_eq(b.binders[q].as_str(), binder.as_str()) {
                shadowed_later = true;
            }
            proof {
                if shadowed_later && !(bv[q as int] == bv[pos as int]) {
                    let w = choose|w: int| pos < w < q && #[trigger] bv[w] == bv[pos as int];
                    assert(pos < w < q + 1 && bv[w] == bv[pos as int]);
                }
                if !shadowed_later {
                    assert forall|w: int| pos < w < q + 1 implies !(#[trigger] bv[w] == bv[pos as int]) by {
                        if w < q {
                        }
                    }
                }
            }
            q = q + 1;
        }
        proof {
            let sub = bv.subrange(pos + 1, bv.len() as int);
            assert(shadowed_later == sub.contains(bv[pos as int])) by {
                if shadowed_later {
                    let w = choose|w: int| pos < w < q && #[trigger] bv[w] == bv[pos as int];
                    assert(sub[w - pos - 1] == bv[pos as int]);
                }
                if sub.contains(bv[pos as int]) {
                    let w = choose|w: int| 0 <= w < sub.len() && sub[w] == bv[pos as int];
                    assert(bv[w + pos + 1] == bv[pos as int]);
                }
            }
            assert(bv[pos as int] == binder@);
        }
        let ghost old_out = names_view(out@);
        let ghost old_body = body@;
        let ghost old_avoid = avoid.view();
        if shadowed_later || !image.contains(binder.as_str()) {
            proof {
                assert(rename_binders(bv, pos as int, old_body, old_avoid, img, fuel) == (
                    seq![binder@] + rename_binders(bv, pos + 1, old_body, old_avoid, img, fuel).0,
                    rename_binders(bv, pos + 1, old_body, old_avoid, img, fuel).1,
                ));
            }
            out.push(binder.clone());
            proof {
                assert(names_view(out@) =~= old_out.push(binder@));
                assert(names_view(out@) + rename_binders(bv, pos + 1, body@, avoid.view(), img, fuel).0 =~= old_out + (seq![binder@] + rename_binders(bv, pos + 1, body@, avoid.view(), img, fuel).0));
            }
        } else {
            let fresh = fresh_binder_exec(binder, &avoid);
            avoid.insert(fresh.clone());
            let mut rename = Subst::new();
            rename.insert(binder.clone(), Term::Var(fresh.clone()));
            proof {
                lemma_single_var_map(binder@, fresh@);
                assert(rename@ == Map::<Seq<char>, STerm>::empty().insert(binder@, STerm::Var(fresh@)));
            }
            body = subst_term(&body, &rename, Ghost(fuel));
            proof {
                assert(rename_binders(bv, pos as int, old_body, old_avoid, img, fuel) == (
                    seq![fresh@] + rename_binders(bv, pos + 1, body@, avoid.view(), img, fuel).0,
                    rename_binders(bv, pos + 1, body@, avoid.view(), img, fuel).1,
                ));
            }
            out.push(fresh);
            proof {
                assert(names_view(out@) =~= old_out.push(fresh@));
                assert(names_view(out@) + rename_binders(bv, pos + 1, body@, avoid.view(), img, fuel).0 =~= old_out + (seq![fresh@] + rename_binders(bv, pos + 1, body@, avoid.view(), img, fuel).0));
            }
        }
        pos = pos + 1;
    }
    let new_body = subst_term(&body, &inner, Ghost(fuel));
    let r = CaseBranch { constructor: b.constructor.clone(), binders: out, body: new_body };
    proof {
        assert(rename_binders(bv, pos as int, body@, avoid.view(), img, fuel).0 =~= Seq::<Seq<char>>::empty());
        assert(names_view(out@) + Seq::<Seq<char>>::empty() =~= names_view(out@));
    }
    r
}

impl Term {
    /// Apply a capture-avoiding substitution (variable name to term).
    pub fn substitute(&self, s: &Subst) -> (r: Term)
        ensures
            r@ == subst(self@, s@),
    {
        subst_term(self, s, Ghost(size(self@)))
    }
}

// ---------------------------------------------------------------------------
// Composition of substitutions
// ---------------------------------------------------------------------------

/// The composite `tau ∘ sigma`: each key of `sigma` goes to its image
/// with `tau` substituted in, each remaining key of `tau` to its `tau`
/// image.
pub open spec fn compose_spec(tau: Map<Seq<char>, STerm>, sigma: Map<Seq<char>, STerm>) -> Map<Seq<char>, STerm> {
    Map::new(
        |x: Seq<char>| sigma.contains_key(x) || tau.contains_key(x),
        |x: Seq<char>| if sigma.contains_key(x) {
            subst(sigma[x], tau)
        } else {
            tau[x]
        },
    )
}

/// The substitution that applies `sigma` first and then `tau`.
pub fn compose_subst(tau: &Subst, sigma: &Subst) -> (r: Subst)
    ensures
        r@ == compose_spec(tau@, sigma@),
{
    let mut out = Subst::new();
    let mut i: usize = 0;
    let ghost es = sigma.entries@;
    while i < sigma.entries.len()
        invariant
            es == sigma.entries@,
            i <= es.len(),
            out@ == Map::new(
                |x: Seq<char>| entries_map(es.take(i as int)).contains_key(x),
                |x: Seq<char>| subst(entries_map(es.take(i as int))[x], tau@),
            ),
        decreases es.len() - i,
    {
        let v = sigma.entries[i].1.substitute(tau);
        out.insert(sigma.entries[i].0.clone(), v);
        proof {
            assert(es.take(i + 1).drop_last() =~= es.take(i as int));
            assert(out@ =~= Map::new(
                |x: Seq<char>| entries_map(es.take(i + 1)).contains_key(x),
                |x: Seq<char>| subst(entries_map(es.take(i + 1))[x], tau@),
            ));
        }
        i = i + 1;
    }
    proof {
        assert(es.take(es.len() as int) =~= es);
    }
    let ghost first = out@;
    let mut j: usize = 0;
    let ghost ts = tau.entries@;
    while j < tau.entries.len()
        invariant
            ts == tau.entries@,
            j <= ts.len(),
            first == Map::new(|x: Seq<char>| sigma@.contains_key(x), |x: Seq<char>| subst(sigma@[x], tau@)),
            out@ == Map::new(
                |x: Seq<char>| sigma@.contains_key(x) || entries_map(ts.take(j as int)).contains_key(x),
                |x: Seq<char>| if sigma@.contains_key(x) {
                    subst(sigma@[x], tau@)
                } else {
                    entries_map(ts.take(j as int))[x]
                },
            ),
        decreases ts.len() - j,
    {
        let k = &tau.entries[j].0;
        proof {
            assert(ts.take(j + 1).drop_last() =~= ts.take(j as int));
        }
        if !sigma.contains_key(k) {
            out.insert(k.clone(), tau.entries[j].1.deep_copy());
            proof {
                assert(out@ =~= Map::new(
                    |x: Seq<char>| sigma@.contains_key(x) || entries_map(ts.take(j + 1)).contains_key(x),
                    |x: Seq<char>| if sigma@.contains_key(x) {
                        subst(sigma@[x], tau@)
                    } else {
                        entries_map(ts.take(j + 1))[x]
                    },
                ));
            }
        } else {
            proof {
                assert(out@ =~= Map::new(
                    |x: Seq<char>| sigma@.contains_key(x) || entries_map(ts.take(j + 1)).contains_key(x),
                    |x: Seq<char>| if sigma@.contains_key(x) {
                        subst(sigma@[x], tau@)
                    } else {
                        entries_map(ts.take(j + 1))[x]
                    },
                ));
            }
        }
        j = j + 1;
    }
    proof {
        assert(ts.take(ts.len() as int) =~= ts);
        assert(out@ =~= compose_spec(tau@, sigma@));
    }
    out
}

// ---------------------------------------------------------------------------
// Equations
// ---------------------------------------------------------------------------

/// An equation (axiom) of a theory: a named judgemental equality.
#[derive(Debug)]
pub struct Equation {
    /// The equation's name.
    pub name: String,
    /// The left-hand side.
    pub lhs: Term,
    /// The right-hand side.
    pub rhs: Term,
}

/// The model of an equation.
pub struct SEquation {
    /// The name.
    pub name: Seq<char>,
    /// The left-hand side.
    pub lhs: STerm,
    /// The right-hand side.
    pub rhs: STerm,
}

impl View for Equation {
    type V = SEquation;

    open spec fn view(&self) -> SEquation {
        SEquation { name: self.name@, lhs: self.lhs@, rhs: self.rhs@ }
    }
}

impl Equation {
    /// A named equation.
    pub fn new(name: &str, lhs: Term, rhs: Term) -> (r: Equation)
        ensures
            r.name@ == name@,
            r.lhs@ == lhs@,
            r.rhs@ == rhs@,
    {
        Equation { name: name.to_owned(), lhs, rhs }
    }

    /// Rename the operations of both sides.
    pub fn rename_ops(&self, op_map: &RenameMap) -> (r: Equation)
        ensures
            r.name@ == self.name@,
            r.lhs@ == rename_ops_spec(self.lhs@, op_map@),
            r.rhs@ == rename_ops_spec(self.rhs@, op_map@),
    {
        Equation { name: self.name.clone(), lhs: self.lhs.rename_ops(op_map), rhs: self.rhs.rename_ops(op_map) }
    }

    /// A structural copy.
    pub fn copy(&self) -> (r: Equation)
        ensures
            r@ == self@,
    {
        Equation { name: self.name.clone(), lhs: self.lhs.deep_copy(), rhs: self.rhs.deep_copy() }
    }
}

/// A directed equation (rewrite rule): rewrite a value matching `lhs` to
/// `rhs`, computed by the expression `impl_term`.
#[derive(Debug)]
pub struct DirectedEquation {
    /// The rule's name.
    pub name: String,
    /// The pattern to match.
    pub lhs: Term,
    /// The rewrite target.
    pub rhs: Term,
    /// The expression that computes the rewrite, in the expression
    /// language's surface syntax.
    pub impl_term: String,
    /// The expression that computes the backward direction, if any.
    pub inverse: Option<String>,
    /// Source value kind, for a value-level coercion.
    pub source_kind: Option<ValueKind>,
    /// Target value kind, for a value-level coercion.
    pub target_kind: Option<ValueKind>,
    /// Round-trip class of the rule as a coercion.
    pub coercion_class: CoercionClass,
}

/// The rewrite rules of a list of directed equations, as `(lhs, rhs)`
/// models.
pub open spec fn rules_view(eqs: Seq<DirectedEquation>) -> Seq<(STerm, STerm)> {
    Seq::new(eqs.len(), |i: int| (eqs[i].lhs@, eqs[i].rhs@))
}

/// The model of a directed equation.
pub struct SDirectedEquation {
    /// The name.
    pub name: Seq<char>,
    /// The pattern.
    pub lhs: STerm,
    /// The target.
    pub rhs: STerm,
    /// The implementing expression.
    pub impl_term: Seq<char>,
    /// The inverse expression.
    pub inverse: Option<Seq<char>>,
    /// Source kind.
    pub source_kind: Option<ValueKind>,
    /// Target kind.
    pub target_kind: Option<ValueKind>,
    /// Coercion class.
    pub coercion_class: CoercionClass,
}

impl View for DirectedEquation {
    type V = SDirectedEquation;

    open spec fn view(&self) -> SDirectedEquation {
        SDirectedEquation {
            name: self.name@,
            lhs: self.lhs@,
            rhs: self.rhs@,
            impl_term: self.impl_term@,
            inverse: match self.inverse {
                Some(i) => Some(i@),
                None => None,
            },
            source_kind: self.source_kind,
            target_kind: self.target_kind,
            coercion_class: self.coercion_class,
        }
    }
}

impl DirectedEquation {
    /// A rule with no inverse: an `Opaque` coercion.
    pub fn new(name: &str, lhs: Term, rhs: Term, impl_term: String) -> (r: DirectedEquation)
        ensures
            r.name@ == name@,
            r.lhs@ == lhs@,
            r.rhs@ == rhs@,
            r.impl_term@ == impl_term@,
            r.inverse is None,
            r.source_kind is None,
            r.target_kind is None,
            r.coercion_class == CoercionClass::Opaque,
    {
        DirectedEquation {
            name: name.to_owned(),
            lhs,
            rhs,
            impl_term,
            inverse: None,
            source_kind: None,
            target_kind: None,
            coercion_class: CoercionClass::Opaque,
        }
    }

    /// A rule with an inverse: a `Retraction` coercion.
    pub fn with_inverse(name: &str, lhs: Term, rhs: Term, impl_term: String, inverse: String) -> (r: DirectedEquation)
        ensures
            r.name@ == name@,
            r.lhs@ == lhs@,
            r.rhs@ == rhs@,
            r.impl_term@ == impl_term@,
            r.inverse matches Some(i) && i@ == inverse@,
            r.source_kind is None,
            r.target_kind is None,
            r.coercion_class == CoercionClass::Retraction,
    {
        DirectedEquation {
            name: name.to_owned(),
            lhs,
            rhs,
            impl_term,
            inverse: Some(inverse),
            source_kind: None,
            target_kind: None,
            coercion_class: CoercionClass::Retraction,
        }
    }

    /// Set the value kinds and the coercion class.
    pub fn with_kinds(self, source: ValueKind, target: ValueKind, class: CoercionClass) -> (r: DirectedEquation)
        ensures
            r.name == self.name,
            r.lhs == self.lhs,
            r.rhs == self.rhs,
            r.impl_term == self.impl_term,
            r.inverse == self.inverse,
            r.source_kind == Some(source),
            r.target_kind == Some(target),
            r.coercion_class == class,
    {
        let mut s = self;
        s.source_kind = Some(source);
        s.target_kind = Some(target);
        s.coercion_class = class;
        s
    }

    /// Rename the operations of both sides; everything else is kept.
    pub fn rename_ops(&self, op_map: &RenameMap) -> (r: DirectedEquation)
        ensures
            r.name@ == self.name@,
            r.lhs@ == rename_ops_spec(self.lhs@, op_map@),
            r.rhs@ == rename_ops_spec(self.rhs@, op_map@),
            r.impl_term@ == self.impl_term@,
            r.inverse == self.inverse,
            r.source_kind == self.source_kind,
            r.target_kind == self.target_kind,
            r.coercion_class == self.coercion_class,
    {
        DirectedEquation {
            name: self.name.clone(),
            lhs: self.lhs.rename_ops(op_map),
            rhs: self.rhs.rename_ops(op_map),
            impl_term: self.impl_term.clone(),
            inverse: self.inverse.clone(),
            source_kind: self.source_kind,
            target_kind: self.target_kind,
            coercion_class: self.coercion_class,
        }
    }

    /// A structural copy.
    pub fn copy(&self) -> (r: DirectedEquation)
        ensures
            r@ == self@,
            r.name@ == self.name@,
            r.lhs@ == self.lhs@,
            r.rhs@ == self.rhs@,
            r.impl_term@ == self.impl_term@,
            r.inverse == self.inverse,
            r.source_kind == self.source_kind,
            r.target_kind == self.target_kind,
            r.coercion_class == self.coercion_class,
    {
        DirectedEquation {
            name: self.name.clone(),
            lhs: self.lhs.deep_copy(),
            rhs: self.rhs.deep_copy(),
            impl_term: self.impl_term.clone(),
            inverse: self.inverse.clone(),
            source_kind: self.source_kind,
            target_kind: self.target_kind,
            coercion_class: self.coercion_class,
        }
    }
}

// ---------------------------------------------------------------------------
// Laws of substitution and renaming
// ---------------------------------------------------------------------------

proof fn lemma_rename_binders_nothing(
    bs: Seq<Seq<char>>,
    pos: int,
    body: STerm,
    avoid: Set<Seq<char>>,
    fuel: nat,
)
    requires
        0 <= pos,
    ensures
        rename_binders(bs, pos, body, avoid, Set::empty(), fuel) == (
            if pos < bs.len() { bs.subrange(pos, bs.len() as int) } else { Seq::empty() },
            body,
        ),
    decreases (if pos < bs.len() { bs.len() - pos } else { 0 }) as nat,
{
    if pos < bs.len() {
        lemma_rename_binders_nothing(bs, pos + 1, body, avoid, fuel);
        let rest = if pos + 1 < bs.len() { bs.subrange(pos + 1, bs.len() as int) } else { Seq::empty() };
        assert(seq![bs[pos]] + rest =~= bs.subrange(pos, bs.len() as int));
    }
}

proof fn lemma_subst_empty_fuel(t: STerm, fuel: nat)
    ensures
        subst_fuel(t, Map::empty(), fuel) == t,
    decreases fuel, 0nat,
{
    if fuel > 0 {
        let e = Map::<Seq<char>, STerm>::empty();
        match t {
            STerm::App { op, args } => {
                assert forall|i: int| 0 <= i < args.len() implies subst_fuel(#[trigger] args[i], e, (fuel - 1) as nat) == args[i] by {
                    lemma_subst_empty_fuel(args[i], (fuel - 1) as nat);
                }
                assert(subst_fuel(t, e, fuel)->args =~= args);
            },
            STerm::Case { scrutinee, branches } => {
                lemma_subst_empty_fuel(*scrutinee, (fuel - 1) as nat);
                assert forall|i: int| 0 <= i < branches.len() implies subst_branch(#[trigger] branches[i], e, (fuel - 1) as nat) == branches[i] by {
                    lemma_subst_branch_empty(branches[i], (fuel - 1) as nat);
                }
                assert(subst_fuel(t, e, fuel)->branches =~= branches);
            },
            STerm::Let { name, bound, body } => {
                lemma_subst_empty_fuel(*bound, (fuel - 1) as nat);
                assert(e.remove(name) =~= e);
                assert(image_free_vars(e.remove(name), free_vars(*body)) =~= Set::empty());
                lemma_subst_empty_fuel(*body, (fuel - 1) as nat);
            },
            _ => {},
        }
    }
}

proof fn lemma_subst_branch_empty(b: SBranch, fuel: nat)
    ensures
        subst_branch(b, Map::empty(), fuel) == b,
    decreases fuel, 1nat,
{
    let e = Map::<Seq<char>, STerm>::empty();
    let bset = seq_names_set(b.binders);
    assert(e.remove_keys(bset) =~= e);
    assert(image_free_vars(e, free_vars(b.body)) =~= Set::empty());
    let avoid = Set::<Seq<char>>::empty().union(free_vars(b.body)).union(bset);
    lemma_rename_binders_nothing(b.binders, 0, b.body, avoid, fuel);
    if b.binders.len() > 0 {
        assert(b.binders.subrange(0, b.binders.len() as int) =~= b.binders);
    } else {
        assert(b.binders =~= Seq::<Seq<char>>::empty());
    }
    lemma_subst_empty_fuel(b.body, fuel);
}

/// Substituting the empty substitution leaves a term unchanged.
pub proof fn lemma_subst_empty(t: STerm)
    ensures
        subst(t, Map::empty()) == t,
{
    lemma_subst_empty_fuel(t, size(t));
}

/// Every key of the substitution is sent to the variable of that name.
pub open spec fn is_identity_subst(s: Map<Seq<char>, STerm>) -> bool {
    forall|k: Seq<char>| #[trigger] s.contains_key(k) ==> s[k] == STerm::Var(k)
}

/// Under an identity substitution, the free variables of the images are
/// among its keys.
proof fn lemma_identity_image(s: Map<Seq<char>, STerm>, body_free: Set<Seq<char>>, x: Seq<char>)
    requires
        is_identity_subst(s),
        image_free_vars(s, body_free).contains(x),
    ensures
        s.contains_key(x),
{
    let k = choose|k: Seq<char>| s.contains_key(k) && body_free.contains(k) && #[trigger] free_vars(s[k]).contains(x);
    assert(free_vars(s[k]) == set![k]);
}

proof fn lemma_rename_binders_untouched(
    bs: Seq<Seq<char>>,
    pos: int,
    body: STerm,
    avoid: Set<Seq<char>>,
    image: Set<Seq<char>>,
    fuel: nat,
)
    requires
        0 <= pos,
        forall|j: int| 0 <= j < bs.len() ==> !image.contains(#[trigger] bs[j]),
    ensures
        rename_binders(bs, pos, body, avoid, image, fuel) == (
            if pos < bs.len() { bs.subrange(pos, bs.len() as int) } else { Seq::empty() },
            body,
        ),
    decreases (if pos < bs.len() { bs.len() - pos } else { 0 }) as nat,
{
    if pos < bs.len() {
        lemma_rename_binders_untouched(bs, pos + 1, body, avoid, image, fuel);
        let rest = if pos + 1 < bs.len() { bs.subrange(pos + 1, bs.len() as int) } else { Seq::empty() };
        assert(seq![bs[pos]] + rest =~= bs.subrange(pos, bs.len() as int));
    }
}

proof fn lemma_subst_identity_fuel(t: STerm, s: Map<Seq<char>, STerm>, fuel: nat)
    requires
        is_identity_subst(s),
    ensures
        subst_fuel(t, s, fuel) == t,
    decreases fuel, 0nat,
{
    if fuel > 0 {
        match t {
            STerm::App { op, args } => {
                assert forall|i: int| 0 <= i < args.len() implies subst_fuel(#[trigger] args[i], s, (fuel - 1) as nat) == args[i] by {
                    lemma_subst_identity_fuel(args[i], s, (fuel - 1) as nat);
                }
                assert(subst_fuel(t, s, fuel)->args =~= args);
            },
            STerm::Case { scrutinee, branches } => {
                lemma_subst_identity_fuel(*scrutinee, s, (fuel - 1) as nat);
                assert forall|i: int| 0 <= i < branches.len() implies subst_branch(#[trigger] branches[i], s, (fuel - 1) as nat) == branches[i] by {
                    lemma_subst_branch_identity(branches[i], s, (fuel - 1) as nat);
                }
                assert(subst_fuel(t, s, fuel)->branches =~= branches);
            },
            STerm::Let { name, bound, body } => {
                let inner = s.remove(name);
                lemma_subst_identity_fuel(*bound, s, (fuel - 1) as nat);
                assert(is_identity_subst(inner));
                if image_free_vars(inner, free_vars(*body)).contains(name) {
                    lemma_identity_image(inner, free_vars(*body), name);
                }
                lemma_subst_identity_fuel(*body, inner, (fuel - 1) as nat);
            },
            _ => {},
        }
    }
}

proof fn lemma_subst_branch_identity(b: SBranch, s: Map<Seq<char>, STerm>, fuel: nat)
    requires
        is_identity_subst(s),
    ensures
        subst_branch(b, s, fuel) == b,
    decreases fuel, 1nat,
{
    let bset = seq_names_set(b.binders);
    let inner = s.remove_keys(bset);
    let body_free = free_vars(b.body);
    let image = image_free_vars(inner, body_free);
    assert(is_identity_subst(inner));
    assert forall|j: int| 0 <= j < b.binders.len() implies !image.contains(#[trigger] b.binders[j]) by {
        if image.contains(b.binders[j]) {
            lemma_identity_image(inner, body_free, b.binders[j]);
            assert(bset.contains(b.binders[j]));
        }
    }
    let avoid = image.union(body_free).union(bset);
    lemma_rename_binders_untouched(b.binders, 0, b.body, avoid, image, fuel);
    if b.binders.len() > 0 {
        assert(b.binders.subrange(0, b.binders.len() as int) =~= b.binders);
    } else {
        assert(b.binders =~= Seq::<Seq<char>>::empty());
    }
    lemma_subst_identity_fuel(b.body, inner, fuel);
}

/// A substitution that sends each of its variables to itself leaves a
/// term unchanged.
pub proof fn lemma_subst_identity(t: STerm, s: Map<Seq<char>, STerm>)
    requires
        is_identity_subst(s),
    ensures
        subst(t, s) == t,
{
    lemma_subst_identity_fuel(t, s, size(t));
}

/// Every key of the map is sent to itself.
pub open spec fn fixes_keys(m: Map<Seq<char>, Seq<char>>) -> bool {
    forall|k: Seq<char>| #[trigger] m.contains_key(k) ==> m[k] == k
}

/// Renaming operations by a map that sends each of its keys to itself
/// leaves a term unchanged.
pub proof fn lemma_rename_ops_fixed(t: STerm, m: Map<Seq<char>, Seq<char>>)
    requires
        fixes_keys(m),
    ensures
        rename_ops_spec(t, m) == t,
    decreases t,
{
    match t {
        STerm::App { op, args } => {
            assert forall|i: int| 0 <= i < args.len() implies rename_ops_spec(#[trigger] args[i], m) == args[i] by {
                lemma_rename_ops_fixed(args[i], m);
            }
            assert(rename_ops_spec(t, m)->args =~= args);
        },
        STerm::Case { scrutinee, branches } => {
            lemma_rename_ops_fixed(*scrutinee, m);
            assert forall|i: int| 0 <= i < branches.len() implies rename_ops_spec(#[trigger] branches[i].body, m) == branches[i].body by {
                lemma_rename_ops_fixed(branches[i].body, m);
            }
            assert(rename_ops_spec(t, m)->branches =~= branches);
        },
        STerm::Let { name, bound, body } => {
            lemma_rename_ops_fixed(*bound, m);
            lemma_rename_ops_fixed(*body, m);
        },
        _ => {},
    }
}

} // verus!
