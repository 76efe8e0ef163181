//! Algebraic record structures: a named record with sort parameters and
//! typed fields, some optional.
use vstd::prelude::*;

verus! {

/// A record structure.
#[derive(Debug, PartialEq, Eq)]
pub struct AlgStruct {
    /// The structure's name.
    pub name: String,
    /// Its sort parameters.
    pub params: Vec<StructParam>,
    /// Its fields.
    pub fields: Vec<StructField>,
}

/// A sort parameter of a structure.
#[derive(Debug, PartialEq, Eq)]
pub struct StructParam {
    /// The parameter name.
    pub name: String,
    /// The sort it ranges over.
    pub sort: String,
}

/// A field of a structure.
#[derive(Debug, PartialEq, Eq)]
pub struct StructField {
    /// The field name.
    pub name: String,
    /// The field's sort.
    pub sort: String,
    /// Whether the field may be absent.
    pub optional: bool,
}

/// The number of required (non-optional) fields among the first `n`.
pub open spec fn required_count(fields: Seq<StructField>, n: int) -> nat
    decreases n,
{
    if n <= 0 {
        0
    } else {
        required_count(fields, n - 1) + if fields[n - 1].optional {
            0nat
        } else {
            1nat
        }
    }
}

impl AlgStruct {
    /// A structure with no parameters and no fields.
    pub fn new(name: &str) -> (r: AlgStruct)
        ensures
            r.name@ == name@,
            r.params@.len() == 0,
            r.fields@.len() == 0,
    {
        AlgStruct { name: name.to_owned(), params: Vec::new(), fields: Vec::new() }
    }

    /// Add a sort parameter.
    pub fn with_param(self, name: &str, sort: &str) -> (r: AlgStruct)
        ensures
            r.name == self.name,
            r.fields == self.fields,
            r.params@.len() == self.params@.len() + 1,
            r.params@.take(self.params@.len() as int) == self.params@,
            r.params@.last().name@ == name@,
            r.params@.last().sort@ == sort@,
    {
        let mut s = self;
        s.params.push(StructParam { name: name.to_owned(), sort: sort.to_owned() });
        assert(s.params@.take(self.params@.len() as int) =~= self.params@);
        s
    }

    /// Add a required field.
    pub fn with_field(self, name: &str, sort: &str) -> (r: AlgStruct)
        ensures
            r.name == self.name,
            r.params == self.params,
            r.fields@.len() == self.fields@.len() + 1,
            r.fields@.take(self.fields@.len() as int) == self.fields@,
            r.fields@.last().name@ == name@,
            r.fields@.last().sort@ == sort@,
            !r.fields@.last().optional,
    {
        let mut s = self;
        s.fields.push(StructField { name: name.to_owned(), sort: sort.to_owned(), optional: false });
        assert(s.fields@.take(self.fields@.len() as int) =~= self.fields@);
        s
    }

    /// Add an optional field.
    pub fn with_optional_field(self, name: &str, sort: &str) -> (r: AlgStruct)
        ensures
            r.name == self.name,
            r.params == self.params,
            r.fields@.len() == self.fields@.len() + 1,
            r.fields@.take(self.fields@.len() as int) == self.fields@,
            r.fields@.last().name@ == name@,
            r.fields@.last().sort@ == sort@,
            r.fields@.last().optional,
    {
        let mut s = self;
        s.fields.push(StructField { name: name.to_owned(), sort: sort.to_owned(), optional: true });
        assert(s.fields@.take(self.fields@.len() as int) =~= self.fields@);
        s
    }

    /// The number of required fields.
    pub fn required_field_count(&self) -> (n: usize)
        ensures
            n == required_count(self.fields@, self.fields@.len() as int),
    {
        let mut n: usize = 0;
        let mut i: usize = 0;
        while i < self.fields.len()
            invariant
                i <= self.fields@.len(),
                n == required_count(self.fields@, i as int),
                n <= i,
            decreases self.fields@.len() - i,
        {
            if !self.fields[i].optional {
                n = n + 1;
            }
            i = i + 1;
        }
        n
    }
}

} // verus!
