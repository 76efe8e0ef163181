//! Theories: named collections of sorts, operations, equations, rewrite
//! rules and conflict policies.
use vstd::prelude::*;

use crate::eq::{DirectedEquation, Equation, SDirectedEquation, SEquation};
use crate::op::{Operation, SOperation};
use crate::sort::{SSort, Sort, ValueKind};

verus! {

/// How a merge resolves two conflicting values.
#[derive(Debug, Clone, Copy, PartialEq, Eq, Structural, Hash)]
pub enum ConflictStrategy {
    /// Keep the left value.
    KeepLeft,
    /// Keep the right value.
    KeepRight,
    /// Fail the merge.
    Fail,
}

/// A named conflict-resolution policy for values of one kind.
#[derive(Debug, PartialEq, Eq)]
pub struct ConflictPolicy {
    /// The policy name.
    pub name: String,
    /// The kind of value it applies to.
    pub value_kind: ValueKind,
    /// The resolution strategy.
    pub strategy: ConflictStrategy,
}

/// The model of a policy.
pub struct SPolicy {
    /// The name.
    pub name: Seq<char>,
    /// The value kind.
    pub value_kind: ValueKind,
    /// The strategy.
    pub strategy: ConflictStrategy,
}

impl View for ConflictPolicy {
    type V = SPolicy;

    open spec fn view(&self) -> SPolicy {
        SPolicy { name: self.name@, value_kind: self.value_kind, strategy: self.strategy }
    }
}

impl ConflictPolicy {
    /// A structural copy.
    pub fn copy(&self) -> (r: ConflictPolicy)
        ensures
            r@ == self@,
    {
        ConflictPolicy { name: self.name.clone(), value_kind: self.value_kind, strategy: self.strategy }
    }
}

/// A generalized algebraic theory.
#[derive(Debug)]
pub struct Theory {
    /// The theory's name.
    pub name: String,
    /// Names of the theories it extends.
    pub extends: Vec<String>,
    /// Sort declarations.
    pub sorts: Vec<Sort>,
    /// Operation declarations.
    pub ops: Vec<Operation>,
    /// Equations (axioms).
    pub eqs: Vec<Equation>,
    /// Directed equations (rewrite rules).
    pub directed_eqs: Vec<DirectedEquation>,
    /// Conflict-resolution policies.
    pub policies: Vec<ConflictPolicy>,
}

/// The model of a theory: every component by its model.
pub struct STheory {
    /// The name.
    pub name: Seq<char>,
    /// The extended theories.
    pub extends: Seq<Seq<char>>,
    /// The sorts.
    pub sorts: Seq<SSort>,
    /// The operations.
    pub ops: Seq<SOperation>,
    /// The equations.
    pub eqs: Seq<SEquation>,
    /// The directed equations.
    pub directed_eqs: Seq<SDirectedEquation>,
    /// The policies.
    pub policies: Seq<SPolicy>,
}

impl View for Theory {
    type V = STheory;

    open spec fn view(&self) -> STheory {
        STheory {
            name: self.name@,
            extends: Seq::new(self.extends@.len(), |i: int| self.extends@[i]@),
            sorts: Seq::new(self.sorts@.len(), |i: int| self.sorts@[i]@),
            ops: Seq::new(self.ops@.len(), |i: int| self.ops@[i]@),
            eqs: Seq::new(self.eqs@.len(), |i: int| self.eqs@[i]@),
            directed_eqs: Seq::new(self.directed_eqs@.len(), |i: int| self.directed_eqs@[i]@),
            policies: Seq::new(self.policies@.len(), |i: int| self.policies@[i]@),
        }
    }
}

/// The position of the first name equal to `n`.
pub open spec fn first_named(names: Seq<Seq<char>>, n: Seq<char>) -> Option<int> {
    if exists|i: int| 0 <= i < names.len() && names[i] == n {
        Some(choose|i: int| 0 <= i < names.len() && names[i] == n && forall|j: int| 0 <= j < i ==> names[j] != n)
    } else {
        None
    }
}

/// The names of a list of sorts.
pub open spec fn sort_names(v: Seq<Sort>) -> Seq<Seq<char>> {
    Seq::new(v.len(), |i: int| v[i].name@)
}

/// The names of a list of operations.
pub open spec fn op_names(v: Seq<Operation>) -> Seq<Seq<char>> {
    Seq::new(v.len(), |i: int| v[i].name@)
}

/// The names of a list of equations.
pub open spec fn eq_names(v: Seq<Equation>) -> Seq<Seq<char>> {
    Seq::new(v.len(), |i: int| v[i].name@)
}

/// The names of a list of directed equations.
pub open spec fn directed_eq_names(v: Seq<DirectedEquation>) -> Seq<Seq<char>> {
    Seq::new(v.len(), |i: int| v[i].name@)
}

/// The names of a list of policies.
pub open spec fn policy_names(v: Seq<ConflictPolicy>) -> Seq<Seq<char>> {
    Seq::new(v.len(), |i: int| v[i].name@)
}

/// The first position of `n` in `names`, scanning from the front.
fn find_first(names: Ghost<Seq<Seq<char>>>, len: usize, n: &str, name_at: &Vec<String>) -> (r: Option<usize>)
    requires
        name_at@.len() == len,
        names@.len() == len,
        forall|i: int| 0 <= i < len ==> #[trigger] names@[i] == name_at@[i]@,
    ensures
        match r {
            Some(i) => i < len && first_named(names@, n@) == Some(i as int),
            None => first_named(names@, n@) is None,
        },
{
    let mut i: usize = 0;
    while i < len
        invariant
            name_at@.len() == len,
            names@.len() == len,
            forall|k: int| 0 <= k < len ==> #[trigger] names@[k] == name_at@[k]@,
            i <= len,
            forall|j: int| 0 <= j < i ==> names@[j] != n@,
        decreases len - i,
    {
        if crate::maps::str_eq(name_at[i].as_str(), n) {
            proof {
                let c = choose|c: int| 0 <= c < names@.len() && names@[c] == n@ && forall|j: int| 0 <= j < c ==> names@[j] != n@;
                assert(names@[i as int] == n@);
                if c < i {
                    assert(names@[c] != n@);
                }
                if c > i {
                    assert(names@[i as int] != n@);
                }
            }
            return Some(i);
        }
        i = i + 1;
    }
    None
}

impl Theory {
    /// A theory with sorts, operations and equations, extending nothing and
    /// with no rewrite rules or policies.
    pub fn new(name: &str, sorts: Vec<Sort>, ops: Vec<Operation>, eqs: Vec<Equation>) -> (r: Theory)
        ensures
            r.name@ == name@,
            r.extends@.len() == 0,
            r.sorts@ == sorts@,
            r.ops@ == ops@,
            r.eqs@ == eqs@,
            r.directed_eqs@.len() == 0,
            r.policies@.len() == 0,
    {
        Theory {
            name: name.to_owned(),
            extends: Vec::new(),
            sorts,
            ops,
            eqs,
            directed_eqs: Vec::new(),
            policies: Vec::new(),
        }
    }

    /// A theory with every component given.
    pub fn full(
        name: &str,
        extends: Vec<String>,
        sorts: Vec<Sort>,
        ops: Vec<Operation>,
        eqs: Vec<Equation>,
        directed_eqs: Vec<DirectedEquation>,
        policies: Vec<ConflictPolicy>,
    ) -> (r: Theory)
        ensures
            r.name@ == name@,
            r.extends@ == extends@,
            r.sorts@ == sorts@,
            r.ops@ == ops@,
            r.eqs@ == eqs@,
            r.directed_eqs@ == directed_eqs@,
            r.policies@ == policies@,
    {
        Theory { name: name.to_owned(), extends, sorts, ops, eqs, directed_eqs, policies }
    }

    /// The first sort with the given name.
    pub fn find_sort(&self, name: &str) -> (r: Option<&Sort>)
        ensures
            match first_named(sort_names(self.sorts@), name@) {
                Some(i) => r == Some(&self.sorts@[i]),
                None => r is None,
            },
    {
        let mut names: Vec<String> = Vec::new();
        let mut i: usize = 0;
        while i < self.sorts.len()
            invariant
                i <= self.sorts@.len(),
                names@.len() == i,
                forall|k: int| 0 <= k < i ==> #[trigger] names@[k]@ == self.sorts@[k].name@,
            decreases self.sorts@.len() - i,
        {
            names.push(self.sorts[i].name.clone());
            i = i + 1;
        }
        match find_first(Ghost(sort_names(self.sorts@)), self.sorts.len(), name, &names) {
            Some(k) => Some(&self.sorts[k]),
            None => None,
        }
    }

    /// The first operation with the given name.
    pub fn find_op(&self, name: &str) -> (r: Option<&Operation>)
        ensures
            match first_named(op_names(self.ops@), name@) {
                Some(i) => r == Some(&self.ops@[i]),
                None => r is None,
            },
    {
        let mut names: Vec<String> = Vec::new();
        let mut i: usize = 0;
        while i < self.ops.len()
            invariant
                i <= self.ops@.len(),
                names@.len() == i,
                forall|k: int| 0 <= k < i ==> #[trigger] names@[k]@ == self.ops@[k].name@,
            decreases self.ops@.len() - i,
        {
            names.push(self.ops[i].name.clone());
            i = i + 1;
        }
        match find_first(Ghost(op_names(self.ops@)), self.ops.len(), name, &names) {
            Some(k) => Some(&self.ops[k]),
            None => None,
        }
    }

    /// The first equation with the given name.
    pub fn find_eq(&self, name: &str) -> (r: Option<&Equation>)
        ensures
            match first_named(eq_names(self.eqs@), name@) {
                Some(i) => r == Some(&self.eqs@[i]),
                None => r is None,
            },
    {
        let mut names: Vec<String> = Vec::new();
        let mut i: usize = 0;
        while i < self.eqs.len()
            invariant
                i <= self.eqs@.len(),
                names@.len() == i,
                forall|k: int| 0 <= k < i ==> #[trigger] names@[k]@ == self.eqs@[k].name@,
            decreases self.eqs@.len() - i,
        {
            names.push(self.eqs[i].name.clone());
            i = i + 1;
        }
        match find_first(Ghost(eq_names(self.eqs@)), self.eqs.len(), name, &names) {
            Some(k) => Some(&self.eqs[k]),
            None => None,
        }
    }

    /// The first directed equation with the given name.
    pub fn find_directed_eq(&self, name: &str) -> (r: Option<&DirectedEquation>)
        ensures
            match first_named(directed_eq_names(self.directed_eqs@), name@) {
                Some(i) => r == Some(&self.directed_eqs@[i]),
                None => r is None,
            },
    {
        let mut names: Vec<String> = Vec::new();
        let mut i: usize = 0;
        while i < self.directed_eqs.len()
            invariant
                i <= self.directed_eqs@.len(),
                names@.len() == i,
                forall|k: int| 0 <= k < i ==> #[trigger] names@[k]@ == self.directed_eqs@[k].name@,
            decreases self.directed_eqs@.len() - i,
        {
            names.push(self.directed_eqs[i].name.clone());
            i = i + 1;
        }
        match find_first(Ghost(directed_eq_names(self.directed_eqs@)), self.directed_eqs.len(), name, &names) {
            Some(k) => Some(&self.directed_eqs[k]),
            None => None,
        }
    }

    /// The first policy with the given name.
    pub fn find_policy(&self, name: &str) -> (r: Option<&ConflictPolicy>)
        ensures
            match first_named(policy_names(self.policies@), name@) {
                Some(i) => r == Some(&self.policies@[i]),
                None => r is None,
            },
    {
        let mut names: Vec<String> = Vec::new();
        let mut i: usize = 0;
        while i < self.policies.len()
            invariant
                i <= self.policies@.len(),
                names@.len() == i,
                forall|k: int| 0 <= k < i ==> #[trigger] names@[k]@ == self.policies@[k].name@,
            decreases self.policies@.len() - i,
        {
            names.push(self.policies[i].name.clone());
            i = i + 1;
        }
        match find_first(Ghost(policy_names(self.policies@)), self.policies.len(), name, &names) {
            Some(k) => Some(&self.policies[k]),
            None => None,
        }
    }

    /// A structural copy.
    pub fn copy(&self) -> (r: Theory)
        ensures
            r@ == self@,
    {
        let mut extends: Vec<String> = Vec::new();
        let mut i: usize = 0;
        while i < self.extends.len()
            invariant
                i <= self.extends@.len(),
                extends@.len() == i,
                forall|k: int| 0 <= k < i ==> #[trigger] extends@[k]@ == self.extends@[k]@,
            decreases self.extends@.len() - i,
        {
            extends.push(self.extends[i].clone());
            i = i + 1;
        }
        let mut sorts: Vec<Sort> = Vec::new();
        let mut i: usize = 0;
        while i < self.sorts.len()
            invariant
                i <= self.sorts@.len(),
                sorts@.len() == i,
                forall|k: int| 0 <= k < i ==> #[trigger] sorts@[k]@ == self.sorts@[k]@,
            decreases self.sorts@.len() - i,
        {
            sorts.push(self.sorts[i].copy());
            i = i + 1;
        }
        let mut ops: Vec<Operation> = Vec::new();
        let mut i: usize = 0;
        while i < self.ops.len()
            invariant
                i <= self.ops@.len(),
                ops@.len() == i,
                forall|k: int| 0 <= k < i ==> #[trigger] ops@[k]@ == self.ops@[k]@,
            decreases self.ops@.len() - i,
        {
            ops.push(self.ops[i].copy());
            i = i + 1;
        }
        let mut eqs: Vec<Equation> = Vec::new();
        let mut i: usize = 0;
        while i < self.eqs.len()
            invariant
                i <= self.eqs@.len(),
                eqs@.len() == i,
                forall|k: int| 0 <= k < i ==> #[trigger] eqs@[k]@ == self.eqs@[k]@,
            decreases self.eqs@.len() - i,
        {
            eqs.push(self.eqs[i].copy());
            i = i + 1;
        }
        let mut des: Vec<DirectedEquation> = Vec::new();
        let mut i: usize = 0;
        while i < self.directed_eqs.len()
            invariant
                i <= self.directed_eqs@.len(),
                des@.len() == i,
                forall|k: int| 0 <= k < i ==> #[trigger] des@[k]@ == self.directed_eqs@[k]@,
            decreases self.directed_eqs@.len() - i,
        {
            des.push(self.directed_eqs[i].copy());
            i = i + 1;
        }
        let mut policies: Vec<ConflictPolicy> = Vec::new();
        let mut i: usize = 0;
        while i < self.policies.len()
            invariant
                i <= self.policies@.len(),
                policies@.len() == i,
                forall|k: int| 0 <= k < i ==> #[trigger] policies@[k]@ == self.policies@[k]@,
            decreases self.policies@.len() - i,
        {
            policies.push(self.policies[i].copy());
            i = i + 1;
        }
        let r = Theory { name: self.name.clone(), extends, sorts, ops, eqs, directed_eqs: des, policies };
        assert(r@.extends =~= self@.extends);
        assert(r@.sorts =~= self@.sorts);
        assert(r@.ops =~= self@.ops);
        assert(r@.eqs =~= self@.eqs);
        assert(r@.directed_eqs =~= self@.directed_eqs);
        assert(r@.policies =~= self@.policies);
        r
    }

    /// Whether a sort with the given name is declared.
    pub fn has_sort(&self, name: &str) -> (r: bool)
        ensures
            r == (first_named(sort_names(self.sorts@), name@) is Some),
    {
        self.find_sort(name).is_some()
    }

    /// Whether an operation with the given name is declared.
    pub fn has_op(&self, name: &str) -> (r: bool)
        ensures
            r == (first_named(op_names(self.ops@), name@) is Some),
    {
        self.find_op(name).is_some()
    }
}

/// A name occurs in a list exactly when it has a first position there.
pub proof fn lemma_first_named(names: Seq<Seq<char>>, n: Seq<char>)
    ensures
        (first_named(names, n) is Some) == names.contains(n),
        first_named(names, n) matches Some(i) ==> 0 <= i < names.len() && names[i] == n,
{
    if exists|i: int| 0 <= i < names.len() && names[i] == n {
        let w = choose|i: int| 0 <= i < names.len() && names[i] == n;
        lemma_least_index(names, n, w);
    }
}

proof fn lemma_least_index(names: Seq<Seq<char>>, n: Seq<char>, w: int)
    requires
        0 <= w < names.len(),
        names[w] == n,
    ensures
        exists|i: int| 0 <= i < names.len() && names[i] == n && forall|j: int| 0 <= j < i ==> names[j] != n,
    decreases w,
{
    if exists|j: int| 0 <= j < w && names[j] == n {
        let j = choose|j: int| 0 <= j < w && names[j] == n;
        lemma_least_index(names, n, j);
    } else {
        assert(forall|j: int| 0 <= j < w ==> names[j] != n);
    }
}

} // verus!
