//! Refinement sorts: a base sort narrowed by constraints, and the subsort
//! relation between them.
use vstd::prelude::*;


verus! {

/// A base sort narrowed by constraints such as `maxLength` or `format`.
#[derive(Debug, PartialEq, Eq)]
pub struct RefinedSort {
    /// The base sort.
    pub base: String,
    /// The constraints.
    pub constraints: Vec<RefinementConstraint>,
}

/// One constraint: a kind (such as `maxLength`) and its value.
#[derive(Debug, PartialEq, Eq)]
pub struct RefinementConstraint {
    /// The constraint kind.
    pub kind: String,
    /// The constraint value.
    pub value: String,
}

/// Errors of refinement checks.
#[derive(Debug, PartialEq, Eq)]
pub enum RefinementError {
    /// A value lies outside a numeric constraint.
    NumericViolation {
        /// The constraint kind.
        kind: String,
        /// The offending value.
        value: String,
    },
    /// A value violates a format constraint.
    FormatViolation {
        /// The constraint kind.
        kind: String,
    },
    /// A numeric constraint's value is not a number.
    MalformedConstraint {
        /// The constraint kind.
        kind: String,
        /// The unparseable value.
        value: String,
    },
}

/// The model of a refinement error.
pub enum SRefinementError {
    /// See [`RefinementError::NumericViolation`].
    NumericViolation { kind: Seq<char>, value: Seq<char> },
    /// See [`RefinementError::FormatViolation`].
    FormatViolation { kind: Seq<char> },
    /// See [`RefinementError::MalformedConstraint`].
    MalformedConstraint { kind: Seq<char>, value: Seq<char> },
}

impl View for RefinementError {
    type V = SRefinementError;

    open spec fn view(&self) -> SRefinementError {
        match self {
            RefinementError::NumericViolation { kind, value } => SRefinementError::NumericViolation { kind: kind@, value: value@ },
            RefinementError::FormatViolation { kind } => SRefinementError::FormatViolation { kind: kind@ },
            RefinementError::MalformedConstraint { kind, value } => SRefinementError::MalformedConstraint {
                kind: kind@,
                value: value@,
            },
        }
    }
}

/// The model of a list of constraints.
pub open spec fn constraints_view(cs: Seq<RefinementConstraint>) -> Seq<(Seq<char>, Seq<char>)> {
    Seq::new(cs.len(), |i: int| (cs[i].kind@, cs[i].value@))
}

impl RefinedSort {
    /// A refined sort from `(kind, value)` pairs.
    pub fn from_constraints(base: &str, constraints: &[(String, String)]) -> (r: RefinedSort)
        ensures
            r.base@ == base@,
            constraints_view(r.constraints@) == Seq::new(constraints@.len(), |i: int| (constraints@[i].0@, constraints@[i].1@)),
    {
        let mut cs: Vec<RefinementConstraint> = Vec::new();
        let mut i: usize = 0;
        while i < constraints.len()
            invariant
                i <= constraints@.len(),
                cs@.len() == i,
                forall|j: int| 0 <= j < i ==> (#[trigger] cs@[j]).kind@ == constraints@[j].0@ && cs@[j].value@ == constraints@[j].1@,
            decreases constraints@.len() - i,
        {
            cs.push(RefinementConstraint { kind: constraints[i].0.clone(), value: constraints[i].1.clone() });
            i = i + 1;
        }
        let r = RefinedSort { base: base.to_owned(), constraints: cs };
        assert(constraints_view(r.constraints@) =~= Seq::new(constraints@.len(), |i: int| (constraints@[i].0@, constraints@[i].1@)));
        r
    }
}


/// Whether a constraint kind bounds a number from above (`Some(true)`),
/// from below (`Some(false)`), or is not numeric (`None`).
pub open spec fn bound_direction_spec(kind: Seq<char>) -> Option<bool> {
    if kind == "maxLength"@ || kind == "maximum"@ || kind == "exclusiveMaximum"@ || kind == "maxItems"@
        || kind == "maxProperties"@ {
        Some(true)
    } else if kind == "minLength"@ || kind == "minimum"@ || kind == "exclusiveMinimum"@ || kind == "minItems"@
        || kind == "minProperties"@ {
        Some(false)
    } else {
        None
    }
}

/// The direction of a numeric constraint kind: `Some(true)` for an upper
/// bound, `Some(false)` for a lower bound, `None` for a non-numeric kind.
pub fn bound_direction(kind: &str) -> (r: Option<bool>)
    ensures
        r == bound_direction_spec(kind@),
{
    proof {
        reveal_strlit("maxLength");
        reveal_strlit("maximum");
        reveal_strlit("exclusiveMaximum");
        reveal_strlit("maxItems");
        reveal_strlit("maxProperties");
        reveal_strlit("minLength");
        reveal_strlit("minimum");
        reveal_strlit("exclusiveMinimum");
        reveal_strlit("minItems");
        reveal_strlit("minProperties");
    }
    if crate::maps::str_eq(kind, "maxLength") || crate::maps::str_eq(kind, "maximum") || crate::maps::str_eq(kind, "exclusiveMaximum")
        || crate::maps::str_eq(kind, "maxItems") || crate::maps::str_eq(kind, "maxProperties") {
        Some(true)
    } else if crate::maps::str_eq(kind, "minLength") || crate::maps::str_eq(kind, "minimum") || crate::maps::str_eq(
        kind,
        "exclusiveMinimum",
    ) || crate::maps::str_eq(kind, "minItems") || crate::maps::str_eq(kind, "minProperties") {
        Some(false)
    } else {
        None
    }
}

/// The model of a verdict.
pub open spec fn verdict_view(r: Result<bool, RefinementError>) -> Result<bool, SRefinementError> {
    match r {
        Ok(b) => Ok(b),
        Err(e) => Err(e@),
    }
}

/// The models of a table of verdicts, row by row.
pub open spec fn verdict_rows(rows: Seq<Vec<Result<bool, RefinementError>>>) -> Seq<Seq<Result<bool, SRefinementError>>> {
    Seq::new(rows.len(), |j: int| Seq::new(rows[j]@.len(), |i: int| verdict_view(rows[j]@[i])))
}

/// Whether a constraint of kind `kind` with this sort's value `sv` is at
/// least as tight as the other sort's value `ov`: for a numeric kind the
/// given comparison of the two numbers `numeric`, else equality of the
/// values.
pub open spec fn tighter_verdict(
    kind: Seq<char>,
    sv: Seq<char>,
    ov: Seq<char>,
    numeric: Result<bool, SRefinementError>,
) -> Result<bool, SRefinementError> {
    match bound_direction_spec(kind) {
        Some(_) => numeric,
        None => Ok(sv == ov),
    }
}

/// Whether the other sort's constraint `oc` is dominated by one of this
/// sort's constraints `sc` of the same kind from position `i` on:
/// `Ok(true)` when one is at least as tight; otherwise the last error of
/// a same-kind comparison (`pending` so far), or `Ok(false)`.
pub open spec fn dominance_from(
    sc: Seq<(Seq<char>, Seq<char>)>,
    oc: (Seq<char>, Seq<char>),
    row: Seq<Result<bool, SRefinementError>>,
    i: int,
    pending: Option<SRefinementError>,
) -> Result<bool, SRefinementError>
    decreases (if 0 <= i < sc.len() { sc.len() - i } else { 0 }) as nat,
{
    if 0 <= i < sc.len() {
        if sc[i].0 != oc.0 {
            dominance_from(sc, oc, row, i + 1, pending)
        } else {
            match tighter_verdict(sc[i].0, sc[i].1, oc.1, row[i]) {
                Ok(true) => Ok(true),
                Ok(false) => dominance_from(sc, oc, row, i + 1, pending),
                Err(e) => dominance_from(sc, oc, row, i + 1, Some(e)),
            }
        }
    } else {
        match pending {
            Some(e) => Err(e),
            None => Ok(false),
        }
    }
}

/// Whether each of the other sort's constraints from position `j` on is
/// dominated: `Ok(true)` when all are, else the first that is not
/// (`Ok(false)`) or that fails.
pub open spec fn dominated_from(
    sc: Seq<(Seq<char>, Seq<char>)>,
    oc: Seq<(Seq<char>, Seq<char>)>,
    rows: Seq<Seq<Result<bool, SRefinementError>>>,
    j: int,
) -> Result<bool, SRefinementError>
    decreases (if 0 <= j < oc.len() { oc.len() - j } else { 0 }) as nat,
{
    if 0 <= j < oc.len() {
        match dominance_from(sc, oc[j], rows[j], 0, None) {
            Ok(true) => dominated_from(sc, oc, rows, j + 1),
            Ok(false) => Ok(false),
            Err(e) => Err(e),
        }
    } else {
        Ok(true)
    }
}

/// The two constraint lists have the same length and every constraint of
/// the first occurs in the second.
pub open spec fn same_constraints(sc: Seq<(Seq<char>, Seq<char>)>, oc: Seq<(Seq<char>, Seq<char>)>) -> bool {
    sc.len() == oc.len() && forall|i: int| 0 <= i < sc.len() ==> oc.contains(#[trigger] sc[i])
}

/// Whether a sort with base `sb` and constraints `sc` strictly refines one
/// with base `ob` and constraints `oc`, the numeric comparisons given by
/// `rows` (row `j` for the other's constraint `j`, entry `i` for this
/// sort's constraint `i`): same base, every other constraint dominated,
/// and the constraint lists not the same.
pub open spec fn subsort_verdict(
    sb: Seq<char>,
    sc: Seq<(Seq<char>, Seq<char>)>,
    ob: Seq<char>,
    oc: Seq<(Seq<char>, Seq<char>)>,
    rows: Seq<Seq<Result<bool, SRefinementError>>>,
) -> Result<bool, SRefinementError> {
    if sb != ob {
        Ok(false)
    } else {
        match dominated_from(sc, oc, rows, 0) {
            Ok(true) => Ok(!same_constraints(sc, oc)),
            other => other,
        }
    }
}

/// No sort strictly refines itself, whatever the numeric comparisons say.
pub proof fn lemma_subsort_irreflexive(b: Seq<char>, c: Seq<(Seq<char>, Seq<char>)>, rows: Seq<Seq<Result<bool, SRefinementError>>>)
    ensures
        subsort_verdict(b, c, b, c, rows) != Ok::<bool, SRefinementError>(true),
{
    assert forall|i: int| 0 <= i < c.len() implies c.contains(#[trigger] c[i]) by {
    }
    assert(same_constraints(c, c));
}

fn copy_error(e: &RefinementError) -> (r: RefinementError)
    ensures
        r@ == e@,
{
    match e {
        RefinementError::NumericViolation { kind, value } => RefinementError::NumericViolation { kind: kind.clone(), value: value.clone() },
        RefinementError::FormatViolation { kind } => RefinementError::FormatViolation { kind: kind.clone() },
        RefinementError::MalformedConstraint { kind, value } => RefinementError::MalformedConstraint { kind: kind.clone(), value: value.clone() },
    }
}

impl RefinedSort {
    /// Whether `self` strictly refines `other`, given in `verdicts[j][i]`
    /// whether the number of `self`'s constraint `i` is at least as tight
    /// as that of `other`'s constraint `j` (consulted only where the two
    /// have the same numeric kind): `Ok(false)` for different bases;
    /// otherwise every constraint of `other` must be dominated by a
    /// same-kind constraint of `self`, a failed comparison surfacing only
    /// when none dominates, and the two lists must not be the same.
    pub fn try_subsort_with(&self, other: &RefinedSort, verdicts: &Vec<Vec<Result<bool, RefinementError>>>) -> (r: Result<bool, RefinementError>)
        requires
            verdicts@.len() == other.constraints@.len(),
            forall|j: int| 0 <= j < verdicts@.len() ==> (#[trigger] verdicts@[j])@.len() == self.constraints@.len(),
        ensures
            verdict_view(r) == subsort_verdict(
                self.base@,
                constraints_view(self.constraints@),
                other.base@,
                constraints_view(other.constraints@),
                verdict_rows(verdicts@),
            ),
    {
        let ghost sc = constraints_view(self.constraints@);
        let ghost oc = constraints_view(other.constraints@);
        let ghost rows = verdict_rows(verdicts@);
        if self.base != other.base {
            return Ok(false);
        }
        let mut j: usize = 0;
        while j < other.constraints.len()
            invariant
                sc == constraints_view(self.constraints@),
                oc == constraints_view(other.constraints@),
                rows == verdict_rows(verdicts@),
                verdicts@.len() == other.constraints@.len(),
                forall|q: int| 0 <= q < verdicts@.len() ==> (#[trigger] verdicts@[q])@.len() == self.constraints@.len(),
                j <= oc.len(),
                self.base@ == other.base@,
                dominated_from(sc, oc, rows, 0) == dominated_from(sc, oc, rows, j as int),
            decreases oc.len() - j,
        {
            let oc_j = &other.constraints[j];
            let row = &verdicts[j];
            let mut pending: Option<RefinementError> = None;
            let mut dominated = false;
            let mut i: usize = 0;
            proof {
                assert(oc[j as int] == (oc_j.kind@, oc_j.value@));
            }
            while i < self.constraints.len() && !dominated
                invariant
                    sc == constraints_view(self.constraints@),
                    oc == constraints_view(other.constraints@),
                    rows == verdict_rows(verdicts@),
                    j < oc.len(),
                    oc[j as int] == (oc_j.kind@, oc_j.value@),
                    row@.len() == self.constraints@.len(),
                    rows[j as int] == Seq::new(row@.len(), |q: int| verdict_view(row@[q])),
                    i <= sc.len(),
                    dominated ==> dominance_from(sc, oc[j as int], rows[j as int], 0, None) == Ok::<bool, SRefinementError>(true),
                    !dominated ==> dominance_from(sc, oc[j as int], rows[j as int], 0, None) == dominance_from(
                        sc,
                        oc[j as int],
                        rows[j as int],
                        i as int,
                        match pending {
                            Some(e) => Some(e@),
                            None => None,
                        },
                    ),
                decreases sc.len() - i,
            {
                let sc_i = &self.constraints[i];
                proof {
                    assert(sc[i as int] == (sc_i.kind@, sc_i.value@));
                    assert(rows[j as int][i as int] == verdict_view(row@[i as int]));
                }
                if sc_i.kind == oc_j.kind {
                    let verdict: Result<bool, RefinementError> = match bound_direction(sc_i.kind.as_str()) {
                        Some(_) => match &row[i] {
                            Ok(b) => Ok(*b),
                            Err(e) => Err(copy_error(e)),
                        },
                        None => Ok(sc_i.value == oc_j.value),
                    };
                    match verdict {
                        Ok(true) => {
                            dominated = true;
                        },
                        Ok(false) => {},
                        Err(e) => {
                            pending = Some(e);
                        },
                    }
                }
                i = i + 1;
            }
            if !dominated {
                match pending {
                    Some(e) => {
                        proof {
                            assert(dominance_from(sc, oc[j as int], rows[j as int], 0, None) == Err::<bool, SRefinementError>(e@));
                            assert(dominated_from(sc, oc, rows, j as int) == Err::<bool, SRefinementError>(e@));
                        }
                        return Err(e);
                    },
                    None => {
                        return Ok(false);
                    },
                }
            }
            j = j + 1;
        }
        proof {
            assert(dominated_from(sc, oc, rows, 0) == Ok::<bool, SRefinementError>(true));
        }
        if self.constraints.len() == other.constraints.len() {
            let mut all_in = true;
            let mut i: usize = 0;
            while i < self.constraints.len()
                invariant
                    sc == constraints_view(self.constraints@),
                    oc == constraints_view(other.constraints@),
                    i <= sc.len(),
                    all_in,
                    rows == verdict_rows(verdicts@),
                    self.base@ == other.base@,
                    dominated_from(sc, oc, rows, 0) == Ok::<bool, SRefinementError>(true),
                    forall|q: int| 0 <= q < i ==> oc.contains(#[trigger] sc[q]),
                decreases sc.len() - i,
            {
                let sc_i = &self.constraints[i];
                let mut found = false;
                let mut k: usize = 0;
                while k < other.constraints.len() && !found
                    invariant
                        oc == constraints_view(other.constraints@),
                        k <= oc.len(),
                        found ==> oc.contains((sc_i.kind@, sc_i.value@)),
                        !found ==> forall|q: int| 0 <= q < k ==> oc[q] != (sc_i.kind@, sc_i.value@),
                    decreases oc.len() - k,
                {
                    let oc_k = &other.constraints[k];
                    proof {
                        assert(oc[k as int] == (oc_k.kind@, oc_k.value@));
                    }
                    if oc_k.kind == sc_i.kind && oc_k.value == sc_i.value {
                        found = true;
                    }
                    k = k + 1;
                }
                proof {
                    assert(sc[i as int] == (sc_i.kind@, sc_i.value@));
                }
                if !found {
                    proof {
                        if oc.contains(sc[i as int]) {
                            let q = choose|q: int| 0 <= q < oc.len() && oc[q] == sc[i as int];
                            assert(oc[q] != (sc_i.kind@, sc_i.value@));
                        }
                        assert(!same_constraints(sc, oc));
                        assert(dominated_from(sc, oc, rows, 0) == Ok::<bool, SRefinementError>(true));
                    }
                    return Ok(true);
                }
                i = i + 1;
            }
            return Ok(false);
        }
        Ok(true)
    }
}

} // verus!
