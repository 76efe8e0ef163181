//! Terms of a generalized algebraic theory and their mathematical model.
use vstd::prelude::*;

verus! {

/// A term in a GAT expression.
///
/// Terms are built from variables, operation applications, case analyses on
/// closed-sort scrutinees, typed holes, and local `let` bindings.
#[derive(Debug)]
#[allow(inconsistent_fields)]
pub enum Term {
    /// A variable reference (e.g., `x`, `a`).
    Var(String),
    /// An operation applied to arguments (e.g., `add(x, y)`).
    App {
        /// The operation name.
        op: String,
        /// The argument terms.
        args: Vec<Term>,
    },
    /// A case analysis on a closed-sort scrutinee.
    Case {
        /// The term being case-analysed.
        scrutinee: Box<Term>,
        /// One branch per constructor of the scrutinee's closed sort.
        branches: Vec<CaseBranch>,
    },
    /// A typed hole with an optional name.
    Hole {
        /// Optional name for the hole.
        name: Option<String>,
    },
    /// A local binding `let name = bound in body`.
    Let {
        /// Bound name.
        name: String,
        /// The bound term.
        bound: Box<Term>,
        /// The body in which `name` is in scope.
        body: Box<Term>,
    },
}

/// One branch of a [`Term::Case`] expression.
#[derive(Debug)]
pub struct CaseBranch {
    /// Constructor op name.
    pub constructor: String,
    /// Local binders; one per input of `constructor`.
    pub binders: Vec<String>,
    /// The branch body.
    pub body: Term,
}

/// Mathematical model of a [`Term`]: names are character sequences.
#[allow(inconsistent_fields)]
pub enum STerm {
    Var(Seq<char>),
    App { op: Seq<char>, args: Seq<STerm> },
    Case { scrutinee: Box<STerm>, branches: Seq<SBranch> },
    Hole { name: Option<Seq<char>> },
    Let { name: Seq<char>, bound: Box<STerm>, body: Box<STerm> },
}

/// Mathematical model of a [`CaseBranch`].
pub struct SBranch {
    pub constructor: Seq<char>,
    pub binders: Seq<Seq<char>>,
    pub body: STerm,
}

/// The character sequences of a list of names.
pub open spec fn names_view(ns: Seq<String>) -> Seq<Seq<char>> {
    Seq::new(ns.len(), |i: int| ns[i]@)
}

/// Whether a list of names holds a name.
pub fn names_contain(names: &Vec<String>, n: &String) -> (r: bool)
    ensures
        r == names_view(names@).contains(n@),
{
    let ghost nv = names_view(names@);
    let mut i: usize = 0;
    while i < names.len()
        invariant
            nv == names_view(names@),
            i <= names@.len(),
            forall|j: int| 0 <= j < i ==> nv[j] != n@,
        decreases names@.len() - i,
    {
        if names[i] == *n {
            assert(nv[i as int] == n@);
            return true;
        }
        i = i + 1;
    }
    false
}

/// The view of an optional name.
pub open spec fn opt_name_view(n: Option<String>) -> Option<Seq<char>> {
    match n {
        Some(s) => Some(s@),
        None => None,
    }
}

/// A placeholder term used for out-of-range positions.
pub open spec fn sterm_default() -> STerm {
    STerm::Var(Seq::empty())
}

/// A placeholder branch used for out-of-range positions.
pub open spec fn sbranch_default() -> SBranch {
    SBranch { constructor: Seq::empty(), binders: Seq::empty(), body: STerm::Var(Seq::empty()) }
}

impl Term {
    /// The model of this term.
    pub open spec fn sview(&self) -> STerm
        decreases self,
    {
        match self {
            Term::Var(n) => STerm::Var(n@),
            Term::App { op, args } => STerm::App {
                op: op@,
                args: Seq::new(
                    args@.len(),
                    |i: int|
                        if 0 <= i < args@.len() {
                            args@[i].sview()
                        } else {
                            sterm_default()
                        },
                ),
            },
            Term::Case { scrutinee, branches } => STerm::Case {
                scrutinee: Box::new(scrutinee.sview()),
                branches: Seq::new(
                    branches@.len(),
                    |i: int|
                        if 0 <= i < branches@.len() {
                            branches@[i].sview()
                        } else {
                            sbranch_default()
                        },
                ),
            },
            Term::Hole { name } => STerm::Hole { name: opt_name_view(*name) },
            Term::Let { name, bound, body } => STerm::Let {
                name: name@,
                bound: Box::new(bound.sview()),
                body: Box::new(body.sview()),
            },
        }
    }
}

impl CaseBranch {
    /// The model of this branch.
    pub open spec fn sview(&self) -> SBranch
        decreases self,
    {
        SBranch {
            constructor: self.constructor@,
            binders: names_view(self.binders@),
            body: self.body.sview(),
        }
    }
}

impl View for Term {
    type V = STerm;

    open spec fn view(&self) -> STerm {
        self.sview()
    }
}

impl View for CaseBranch {
    type V = SBranch;

    open spec fn view(&self) -> SBranch {
        self.sview()
    }
}

/// The models of a list of terms.
pub open spec fn view_terms(ts: Seq<Term>) -> Seq<STerm> {
    Seq::new(ts.len(), |i: int| ts[i]@)
}

/// The models of a list of branches.
pub open spec fn view_branches(bs: Seq<CaseBranch>) -> Seq<SBranch> {
    Seq::new(bs.len(), |i: int| bs[i]@)
}

/// The view of an application is the application of the argument views.
pub proof fn lemma_app_view(t: Term)
    ensures
        t matches Term::App { op, args } ==> t@ == (STerm::App { op: op@, args: view_terms(args@) }),
{
    if let Term::App { op, args } = t {
        assert(t@->args =~= view_terms(args@));
    }
}

/// The view of a case is the case of the branch views.
pub proof fn lemma_case_view(t: Term)
    ensures
        t matches Term::Case { scrutinee, branches } ==> t@ == (STerm::Case {
            scrutinee: Box::new((*scrutinee)@),
            branches: view_branches(branches@),
        }),
{
    if let Term::Case { scrutinee, branches } = t {
        assert(t@->branches =~= view_branches(branches@));
    }
}

/// Copy a list of names.
pub fn clone_names(v: &Vec<String>) -> (res: Vec<String>)
    ensures
        res@.len() == v@.len(),
        forall|i: int| 0 <= i < v@.len() ==> #[trigger] res@[i]@ == v@[i]@,
        names_view(res@) == names_view(v@),
{
    let mut res: Vec<String> = Vec::new();
    let mut i: usize = 0;
    while i < v.len()
        invariant
            i <= v@.len(),
            res@.len() == i,
            forall|j: int| 0 <= j < i ==> #[trigger] res@[j]@ == v@[j]@,
        decreases v@.len() - i,
    {
        res.push(v[i].clone());
        i = i + 1;
    }
    assert(names_view(res@) =~= names_view(v@));
    res
}

/// Copy an optional name.
pub fn clone_opt_name(n: &Option<String>) -> (res: Option<String>)
    ensures
        opt_name_view(res) == opt_name_view(*n),
{
    match n {
        Some(s) => Some(s.clone()),
        None => None,
    }
}

impl Term {
    /// A structural copy of this term.
    pub fn deep_copy(&self) -> (res: Term)
        ensures
            res@ == self@,
        decreases self,
    {
        match self {
            Term::Var(n) => Term::Var(n.clone()),
            Term::Hole { name } => Term::Hole { name: clone_opt_name(name) },
            Term::App { op, args } => {
                let new_args = copy_terms(args);
                let res = Term::App { op: op.clone(), args: new_args };
                proof {
                    lemma_app_view(res);
                    lemma_app_view(*self);
                }
                res
            },
            Term::Case { scrutinee, branches } => {
                let s = scrutinee.deep_copy();
                let bs = copy_branches(branches);
                let res = Term::Case { scrutinee: Box::new(s), branches: bs };
                proof {
                    lemma_case_view(res);
                    lemma_case_view(*self);
                }
                res
            },
            Term::Let { name, bound, body } => Term::Let {
                name: name.clone(),
                bound: Box::new(bound.deep_copy()),
                body: Box::new(body.deep_copy()),
            },
        }
    }
}

/// Copy a list of terms.
pub fn copy_terms(args: &Vec<Term>) -> (res: Vec<Term>)
    ensures
        view_terms(res@) == view_terms(args@),
        res@.len() == args@.len(),
    decreases args,
{
    let mut res: Vec<Term> = Vec::new();
    let mut i: usize = 0;
    while i < args.len()
        invariant
            i <= args@.len(),
            res@.len() == i,
            forall|j: int| 0 <= j < i ==> #[trigger] res@[j]@ == args@[j]@,
        decreases args@.len() - i,
    {
        proof {
            assert(decreases_to!(args => args@[i as int]));
        }
        res.push(args[i].deep_copy());
        i = i + 1;
    }
    assert(view_terms(res@) =~= view_terms(args@));
    res
}

/// Copy a list of branches.
pub fn copy_branches(bs: &Vec<CaseBranch>) -> (res: Vec<CaseBranch>)
    ensures
        view_branches(res@) == view_branches(bs@),
        res@.len() == bs@.len(),
    decreases bs,
{
    let mut res: Vec<CaseBranch> = Vec::new();
    let mut i: usize = 0;
    while i < bs.len()
        invariant
            i <= bs@.len(),
            res@.len() == i,
            forall|j: int| 0 <= j < i ==> #[trigger] res@[j]@ == bs@[j]@,
        decreases bs@.len() - i,
    {
        proof {
            assert(decreases_to!(bs => bs@[i as int]));
        }
        let b = &bs[i];
        let nb = CaseBranch {
            constructor: b.constructor.clone(),
            binders: clone_names(&b.binders),
            body: b.body.deep_copy(),
        };
        res.push(nb);
        i = i + 1;
    }
    assert(view_branches(res@) =~= view_branches(bs@));
    res
}

/// Structural equality of two lists of names.
pub fn names_eq(a: &Vec<String>, b: &Vec<String>) -> (r: bool)
    ensures
        r == (names_view(a@) == names_view(b@)),
{
    if a.len() != b.len() {
        assert(names_view(a@).len() != names_view(b@).len());
        return false;
    }
    let mut i: usize = 0;
    while i < a.len()
        invariant
            a@.len() == b@.len(),
            i <= a@.len(),
            forall|j: int| 0 <= j < i ==> #[trigger] a@[j]@ == b@[j]@,
        decreases a@.len() - i,
    {
        if !(a[i] == b[i]) {
            assert(names_view(a@)[i as int] != names_view(b@)[i as int]);
            return false;
        }
        i = i + 1;
    }
    assert(names_view(a@) =~= names_view(b@));
    true
}

/// Equality of two optional names.
pub fn opt_names_eq(a: &Option<String>, b: &Option<String>) -> (r: bool)
    ensures
        r == (opt_name_view(*a) == opt_name_view(*b)),
{
    match a {
        Some(x) => match b {
            Some(y) => {
                let r = *x == *y;
                r
            },
            None => false,
        },
        None => b.is_none(),
    }
}

/// Structural equality of two terms, comparing names by content.
pub fn terms_eq(a: &Term, b: &Term) -> (r: bool)
    ensures
        r == (a@ == b@),
    decreases a,
{
    match a {
        Term::Var(x) => match b {
            Term::Var(y) => {
                let r = *x == *y;
                r
            },
            _ => false,
        },
        Term::Hole { name: x } => match b {
            Term::Hole { name: y } => opt_names_eq(x, y),
            _ => false,
        },
        Term::App { op: o1, args: a1 } => match b {
            Term::App { op: o2, args: a2 } => {
                proof {
                    lemma_app_view(*a);
                    lemma_app_view(*b);
                }
                if !(*o1 == *o2) {
                    assert(a@->op != b@->op);
                    return false;
                }
                term_lists_eq(a1, a2)
            },
            _ => false,
        },
        Term::Case { scrutinee: s1, branches: b1 } => match b {
            Term::Case { scrutinee: s2, branches: b2 } => {
                proof {
                    lemma_case_view(*a);
                    lemma_case_view(*b);
                }
                if !terms_eq(s1, s2) {
                    assert(a@->scrutinee != b@->scrutinee);
                    return false;
                }
                branch_lists_eq(b1, b2)
            },
            _ => false,
        },
        Term::Let { name: n1, bound: bd1, body: by1 } => match b {
            Term::Let { name: n2, bound: bd2, body: by2 } => {
                if !(*n1 == *n2) {
                    assert(a@->Let_name != b@->Let_name);
                    return false;
                }
                if !terms_eq(bd1, bd2) {
                    assert(a@->bound != b@->bound);
                    return false;
                }
                if !terms_eq(by1, by2) {
                    assert(a@->body != b@->body);
                    return false;
                }
                true
            },
            _ => false,
        },
    }
}

/// Element-wise equality of two term lists.
pub fn term_lists_eq(a: &Vec<Term>, b: &Vec<Term>) -> (r: bool)
    ensures
        r == (view_terms(a@) == view_terms(b@)),
    decreases a,
{
    if a.len() != b.len() {
        assert(view_terms(a@).len() != view_terms(b@).len());
        return false;
    }
    let mut i: usize = 0;
    while i < a.len()
        invariant
            a@.len() == b@.len(),
            i <= a@.len(),
            forall|j: int| 0 <= j < i ==> #[trigger] a@[j]@ == b@[j]@,
        decreases a@.len() - i,
    {
        proof {
            assert(decreases_to!(a => a@[i as int]));
        }
        if !terms_eq(&a[i], &b[i]) {
            assert(view_terms(a@)[i as int] != view_terms(b@)[i as int]);
            return false;
        }
        i = i + 1;
    }
    assert(view_terms(a@) =~= view_terms(b@));
    true
}

/// Element-wise equality of two branch lists.
pub fn branch_lists_eq(a: &Vec<CaseBranch>, b: &Vec<CaseBranch>) -> (r: bool)
    ensures
        r == (view_branches(a@) == view_branches(b@)),
    decreases a,
{
    if a.len() != b.len() {
        assert(view_branches(a@).len() != view_branches(b@).len());
        return false;
    }
    let mut i: usize = 0;
    while i < a.len()
        invariant
            a@.len() == b@.len(),
            i <= a@.len(),
            forall|j: int| 0 <= j < i ==> #[trigger] a@[j]@ == b@[j]@,
        decreases a@.len() - i,
    {
        proof {
            assert(decreases_to!(a => a@[i as int]));
        }
        let x = &a[i];
        let y = &b[i];
        if !(x.constructor == y.constructor && names_eq(&x.binders, &y.binders) && terms_eq(
            &x.body,
            &y.body,
        )) {
            assert(view_branches(a@)[i as int] != view_branches(b@)[i as int]);
            return false;
        }
        i = i + 1;
    }
    assert(view_branches(a@) =~= view_branches(b@));
    true
}

impl Clone for Term {
    fn clone(&self) -> (res: Self)
        ensures
            res@ == self@,
    {
        self.deep_copy()
    }
}

impl Clone for CaseBranch {
    fn clone(&self) -> (res: Self)
        ensures
            res@ == self@,
    {
        CaseBranch {
            constructor: self.constructor.clone(),
            binders: clone_names(&self.binders),
            body: self.body.deep_copy(),
        }
    }
}

impl PartialEq for Term {
    fn eq(&self, other: &Self) -> (r: bool) {
        terms_eq(self, other)
    }
}

impl Eq for Term {

}

impl vstd::std_specs::cmp::PartialEqSpecImpl for Term {
    open spec fn obeys_eq_spec() -> bool {
        true
    }

    open spec fn eq_spec(&self, other: &Term) -> bool {
        self@ == other@
    }
}

impl PartialEq for CaseBranch {
    fn eq(&self, other: &Self) -> (r: bool) {
        self.constructor == other.constructor && names_eq(&self.binders, &other.binders)
            && terms_eq(&self.body, &other.body)
    }
}

impl Eq for CaseBranch {

}

impl vstd::std_specs::cmp::PartialEqSpecImpl for CaseBranch {
    open spec fn obeys_eq_spec() -> bool {
        true
    }

    open spec fn eq_spec(&self, other: &CaseBranch) -> bool {
        self@ == other@
    }
}

impl Term {
    /// Create a variable term.
    pub fn var(name: &str) -> (t: Term)
        ensures
            t@ == STerm::Var(name@),
    {
        Term::Var(name.to_owned())
    }

    /// Create an application term.
    pub fn app(op: &str, args: Vec<Term>) -> (t: Term)
        ensures
            t@ == (STerm::App { op: op@, args: view_terms(args@) }),
    {
        let t = Term::App { op: op.to_owned(), args };
        proof {
            lemma_app_view(t);
        }
        t
    }

    /// Create a nullary application (constant).
    pub fn constant(op: &str) -> (t: Term)
        ensures
            t@ == (STerm::App { op: op@, args: Seq::empty() }),
    {
        let t = Term::App { op: op.to_owned(), args: Vec::new() };
        proof {
            lemma_app_view(t);
            assert(view_terms(Seq::<Term>::empty()) =~= Seq::empty());
        }
        t
    }
}

} // verus!
