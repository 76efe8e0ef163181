//! Operations (term constructors) of a theory.
use vstd::prelude::*;

use crate::sort::{SSortExpr, SortExpr};

verus! {

/// Whether an input of an operation is implicit (recovered at the call
/// site by unification) or explicit (supplied by the caller).
#[derive(Debug, Default, Clone, Copy, PartialEq, Eq, Structural, Hash)]
pub enum Implicit {
    /// Explicit: the caller supplies the argument.
    #[default]
    No,
    /// Implicit: recovered by first-order unification.
    Yes,
}

/// An operation of a theory: a name, typed inputs `(param, sort,
/// implicit)` and an output sort. Input names are in scope in later input
/// sorts and in the output sort.
#[derive(Debug)]
pub struct Operation {
    /// The operation name.
    pub name: String,
    /// Typed inputs.
    pub inputs: Vec<(String, SortExpr, Implicit)>,
    /// The output sort.
    pub output: SortExpr,
}

/// The model of one typed input.
pub open spec fn input_view(i: (String, SortExpr, Implicit)) -> (Seq<char>, SSortExpr, Implicit) {
    (i.0@, i.1@, i.2)
}

/// The models of a list of typed inputs.
pub open spec fn inputs_view(v: Seq<(String, SortExpr, Implicit)>) -> Seq<(Seq<char>, SSortExpr, Implicit)> {
    Seq::new(v.len(), |i: int| input_view(v[i]))
}

/// The model of an operation.
pub struct SOperation {
    /// The name.
    pub name: Seq<char>,
    /// The typed inputs.
    pub inputs: Seq<(Seq<char>, SSortExpr, Implicit)>,
    /// The output sort.
    pub output: SSortExpr,
}

impl View for Operation {
    type V = SOperation;

    open spec fn view(&self) -> SOperation {
        SOperation { name: self.name@, inputs: inputs_view(self.inputs@), output: self.output@ }
    }
}

/// Number of explicit inputs among the first `n`.
pub open spec fn explicit_count(v: Seq<(Seq<char>, SSortExpr, Implicit)>, n: int) -> nat
    decreases n,
{
    if n <= 0 {
        0
    } else {
        explicit_count(v, n - 1) + if v[n - 1].2 == Implicit::No {
            1nat
        } else {
            0nat
        }
    }
}

/// Copy a list of typed inputs.
pub fn copy_inputs(v: &Vec<(String, SortExpr, Implicit)>) -> (r: Vec<(String, SortExpr, Implicit)>)
    ensures
        inputs_view(r@) == inputs_view(v@),
{
    let mut r: Vec<(String, SortExpr, Implicit)> = Vec::new();
    let mut i: usize = 0;
    while i < v.len()
        invariant
            i <= v@.len(),
            r@.len() == i,
            forall|j: int| 0 <= j < i ==> input_view(#[trigger] r@[j]) == input_view(v@[j]),
        decreases v@.len() - i,
    {
        let e = &v[i];
        r.push((e.0.clone(), e.1.copy(), e.2));
        i = i + 1;
    }
    assert(inputs_view(r@) =~= inputs_view(v@));
    r
}

impl Operation {
    /// An operation whose inputs are all explicit.
    pub fn new(name: &str, inputs: Vec<(String, SortExpr)>, output: SortExpr) -> (r: Operation)
        ensures
            r@.name == name@,
            r@.output == output@,
            r@.inputs.len() == inputs@.len(),
            forall|i: int| 0 <= i < inputs@.len() ==> #[trigger] r@.inputs[i] == (inputs@[i].0@, inputs@[i].1@, Implicit::No),
    {
        let mut ins: Vec<(String, SortExpr, Implicit)> = Vec::new();
        let mut i: usize = 0;
        while i < inputs.len()
            invariant
                i <= inputs@.len(),
                ins@.len() == i,
                forall|j: int| 0 <= j < i ==> #[trigger] input_view(ins@[j]) == (inputs@[j].0@, inputs@[j].1@, Implicit::No),
            decreases inputs@.len() - i,
        {
            let e = &inputs[i];
            ins.push((e.0.clone(), e.1.copy(), Implicit::No));
            i = i + 1;
        }
        let r = Operation { name: name.to_owned(), inputs: ins, output };
        assert forall|i: int| 0 <= i < inputs@.len() implies #[trigger] r@.inputs[i] == (inputs@[i].0@, inputs@[i].1@, Implicit::No) by {
            assert(input_view(ins@[i]) == (inputs@[i].0@, inputs@[i].1@, Implicit::No));
        }
        r
    }

    /// An operation from fully specified typed inputs.
    pub fn with_implicit(name: &str, inputs: Vec<(String, SortExpr, Implicit)>, output: SortExpr) -> (r: Operation)
        ensures
            r@ == (SOperation { name: name@, inputs: inputs_view(inputs@), output: output@ }),
    {
        Operation { name: name.to_owned(), inputs, output }
    }

    /// A unary operation with one explicit input.
    pub fn unary(name: &str, input_name: &str, input_sort: SortExpr, output: SortExpr) -> (r: Operation)
        ensures
            r@ == (SOperation {
                name: name@,
                inputs: seq![(input_name@, input_sort@, Implicit::No)],
                output: output@,
            }),
    {
        let r = Operation { name: name.to_owned(), inputs: vec![(input_name.to_owned(), input_sort, Implicit::No)], output };
        assert(r@.inputs =~= seq![(input_name@, input_sort@, Implicit::No)]);
        r
    }

    /// A constant: an operation with no inputs.
    pub fn nullary(name: &str, output: SortExpr) -> (r: Operation)
        ensures
            r@ == (SOperation { name: name@, inputs: Seq::empty(), output: output@ }),
    {
        let r = Operation { name: name.to_owned(), inputs: Vec::new(), output };
        assert(r@.inputs =~= Seq::empty());
        r
    }

    /// Total number of inputs, implicit and explicit.
    pub fn arity(&self) -> (n: usize)
        ensures
            n == self@.inputs.len(),
    {
        self.inputs.len()
    }

    /// Number of explicit inputs.
    pub fn explicit_arity(&self) -> (n: usize)
        ensures
            n == explicit_count(self@.inputs, self@.inputs.len() as int),
    {
        let mut n: usize = 0;
        let mut i: usize = 0;
        while i < self.inputs.len()
            invariant
                i <= self.inputs@.len(),
                n == explicit_count(self@.inputs, i as int),
                n <= i,
            decreases self.inputs@.len() - i,
        {
            if self.inputs[i].2 == Implicit::No {
                n = n + 1;
            }
            i = i + 1;
        }
        n
    }

    /// A structural copy.
    pub fn copy(&self) -> (r: Operation)
        ensures
            r@ == self@,
    {
        Operation { name: self.name.clone(), inputs: copy_inputs(&self.inputs), output: self.output.copy() }
    }
}

} // verus!
