//! Errors of the theory operations.
use vstd::prelude::*;

use crate::sort::SortKind;

verus! {

/// Errors that can occur in operations on theories.
#[derive(Debug, PartialEq, Eq)]
#[allow(inconsistent_fields)]
pub enum GatError {
    /// A referenced sort was not found in the theory.
    SortNotFound(String),

    /// A referenced operation was not found in the theory.
    OpNotFound(String),

    /// A referenced theory was not found in the registry.
    TheoryNotFound(String),

    /// Sort arity mismatch in a morphism or model.
    SortArityMismatch {
        /// The sort with mismatched arity.
        sort: String,
        /// Expected number of parameters.
        expected: usize,
        /// Actual number of parameters.
        got: usize,
    },

    /// Operation type mismatch in a morphism or model.
    OpTypeMismatch {
        /// The operation with mismatched types.
        op: String,
        /// Details about the mismatch.
        detail: String,
    },

    /// An equation is not preserved by a morphism.
    EquationNotPreserved {
        /// The equation that failed preservation.
        equation: String,
        /// Details about the failure.
        detail: String,
    },

    /// Equation preservation could not be decided: the mapped equation is not
    /// syntactically present in the codomain and normalization to a common
    /// form exhausted its step budget. The morphism is rejected rather than
    /// accepted on inconclusive evidence.
    EquationPreservationUnknown {
        /// The equation whose preservation could not be decided.
        equation: String,
        /// Details about why the check was inconclusive.
        detail: String,
    },

    /// A directed equation is not preserved by a morphism.
    DirectedEquationNotPreserved {
        /// The directed equation that failed preservation.
        equation: String,
        /// Details about the failure.
        detail: String,
    },

    /// An equality witness does not justify the equality it claims.
    WitnessInvalid {
        /// Why the witness fails to justify its claimed equality.
        reason: String,
    },

    /// A rewrite-driven comparison (equation-sort equality or naturality) ran
    /// out of steps before reaching a normal form, so equality could not be
    /// decided. This is reported instead of a spurious inequality on a
    /// truncated normalization.
    RewriteBudgetExhausted {
        /// What was being checked (an equation name or a naturality square).
        context: String,
        /// The step limit that was hit.
        limit: usize,
    },

    /// Sort conflict during colimit computation.
    SortConflict {
        /// The conflicting sort name.
        name: String,
    },

    /// Operation conflict during colimit computation.
    OpConflict {
        /// The conflicting operation name.
        name: String,
    },

    /// Equation conflict during colimit computation.
    EqConflict {
        /// The conflicting equation name.
        name: String,
    },

    /// Directed equation conflict during colimit computation.
    DirectedEqConflict {
        /// The conflicting directed equation name.
        name: String,
    },

    /// Conflict policy conflict during colimit computation.
    PolicyConflict {
        /// The conflicting policy name.
        name: String,
    },

    /// A morphism is missing a sort mapping.
    MissingSortMapping(String),

    /// A morphism is missing an operation mapping.
    MissingOpMapping(String),

    /// Morphism composition failed: an element in the first morphism's
    /// codomain image is not in the second morphism's domain.
    ComposeUnmapped {
        /// Whether this is a "sort" or "op".
        kind: String,
        /// The element in the first morphism's domain.
        name: String,
        /// The image in the first morphism's codomain (missing from second morphism).
        image: String,
    },

    /// Morphism composition `f ; g` requires `f.codomain == g.domain`.
    ComposeDomainMismatch {
        /// Codomain of the first morphism.
        first_codomain: String,
        /// Domain of the second morphism.
        second_domain: String,
    },

    /// Cyclic dependency detected in theory extends chain.
    CyclicDependency(String),

    /// Model interpretation error.
    ModelError(String),

    /// A variable was not found in the typing context.
    UnboundVariable(String),

    /// An operation was applied to the wrong number of arguments.
    TermArityMismatch {
        /// The operation name.
        op: String,
        /// Expected number of arguments.
        expected: usize,
        /// Actual number of arguments.
        got: usize,
    },

    /// An argument's sort doesn't match the operation's expected input sort.
    ArgTypeMismatch {
        /// The operation name.
        op: String,
        /// Zero-based argument index.
        arg_index: usize,
        /// Expected sort name.
        expected: String,
        /// Actual sort name.
        got: String,
    },

    /// The two sides of an equation have different sorts.
    EquationSortMismatch {
        /// The equation name.
        equation: String,
        /// Sort of the left-hand side.
        lhs_sort: String,
        /// Sort of the right-hand side.
        rhs_sort: String,
    },

    /// A variable is used at conflicting sorts across an equation.
    ConflictingVarSort {
        /// The variable name.
        var: String,
        /// First inferred sort.
        sort1: String,
        /// Second (conflicting) inferred sort.
        sort2: String,
    },

    /// Sort-expression unification failed (e.g. heads differ, arity
    /// mismatch, or occurs check).
    SortUnificationFailure {
        /// Human-readable reason for the failure.
        reason: String,
    },

    /// A morphism assigns an operation a derived term that references a
    /// variable which is not one of the operation's parameters.
    TermAssignmentUnboundVar {
        /// The operation being assigned.
        op: String,
        /// The unbound variable name.
        var: String,
    },

    /// A morphism assigns an operation a derived term whose inferred sort
    /// does not match the operation's mapped output sort.
    TermAssignmentSortMismatch {
        /// The operation being assigned.
        op: String,
        /// The mapped output sort `F(S)`.
        expected: String,
        /// The inferred sort of the assigned term.
        got: String,
    },

    /// A morphism assigns an operation a derived term that fails to
    /// typecheck in the codomain for a reason other than an unbound
    /// variable (e.g. an operation arity or argument-sort mismatch inside
    /// the term).
    TermAssignmentIllTyped {
        /// The operation being assigned.
        op: String,
        /// The underlying type-checking failure.
        detail: String,
    },

    /// Source and target morphisms of a natural transformation have different domains.
    NatTransDomainMismatch {
        /// Source morphism name.
        source_morphism: String,
        /// Target morphism name.
        target_morphism: String,
    },

    /// A natural transformation is missing a component for a sort.
    MissingNatTransComponent(String),

    /// A natural transformation component is invalid.
    NatTransComponentInvalid {
        /// The sort name.
        sort: String,
        /// Details about the invalidity.
        detail: String,
    },

    /// The naturality condition is violated for an operation.
    NaturalityViolation {
        /// The operation where naturality fails.
        op: String,
        /// LHS of the naturality square.
        lhs: String,
        /// RHS of the naturality square.
        rhs: String,
    },

    /// Natural transformation composition mismatch.
    NatTransComposeMismatch {
        /// Target morphism of first nat trans.
        alpha_target: String,
        /// Source morphism of second nat trans.
        beta_source: String,
    },

    /// Sort kind mismatch in a morphism: source and target sorts have different kinds.
    SortKindMismatch {
        /// The sort with mismatched kind.
        sort: String,
        /// Expected sort kind.
        expected: SortKind,
        /// Actual sort kind.
        got: SortKind,
    },

    /// Sort parameter sort mismatch in a morphism: a dependent sort's parameter
    /// sort is not preserved under the sort mapping.
    SortParamMismatch {
        /// The sort with mismatched parameter.
        sort: String,
        /// Zero-based parameter index.
        param_index: usize,
        /// Expected parameter sort (after mapping).
        expected: String,
        /// Actual parameter sort in the target.
        got: String,
    },

    /// Horizontal composition domain mismatch: G's codomain differs from H's domain.
    HorizontalComposeMismatch {
        /// G morphism's codomain.
        g_codomain: String,
        /// H morphism's domain.
        h_domain: String,
    },

    /// Factorization error.
    FactorizationError(String),

    /// Cyclic sort dependencies detected in topological sort.
    CyclicSortDependency(Vec<String>),

    /// Variable-sort inference failed for an equation during free-model
    /// construction, so the equation cannot be used in congruence
    /// closure. Rather than silently dropping the equation (which
    /// under-quotients the model), free-model construction surfaces this
    /// error. Wraps the underlying inference failure detail.
    VarSortInferenceFailed {
        /// The equation whose variable sorts could not be inferred.
        equation: String,
        /// The underlying inference failure (from `infer_var_sorts`).
        detail: String,
    },

    /// A case expression fails to cover every constructor of its
    /// scrutinee's closed sort.
    NonExhaustiveCase {
        /// The scrutinee's sort name.
        sort: String,
        /// Constructor names not covered.
        missing: Vec<String>,
    },

    /// A case expression has two branches for the same constructor.
    RedundantCaseBranch {
        /// The scrutinee's sort name.
        sort: String,
        /// The duplicated constructor name.
        constructor: String,
    },

    /// A case branch names a constructor that is not in the scrutinee's
    /// closed-sort constructor list.
    UnknownCaseConstructor {
        /// The scrutinee's sort name.
        sort: String,
        /// The offending constructor name.
        constructor: String,
    },

    /// A case expression's scrutinee has an open sort; pattern
    /// matching requires a closed sort.
    CaseOnOpenSort {
        /// The scrutinee's sort name.
        sort: String,
    },

    /// A closed sort's constructor list references an op that either
    /// does not exist, does not produce this sort, or conflicts with
    /// another op producing the sort.
    InvalidClosedSortConstructor {
        /// The closed sort name.
        sort: String,
        /// The offending constructor op name.
        constructor: String,
        /// Details about the problem.
        detail: String,
    },

    /// A morphism does not preserve a domain sort's closure: the
    /// image of the constructor list under the op map is not the
    /// codomain sort's constructor list.
    MorphismClosureMismatch {
        /// The domain sort name.
        sort: String,
        /// Expected constructor set (domain closure image under `op_map`).
        expected: Vec<String>,
        /// Actual constructor set in the codomain sort.
        got: Vec<String>,
    },

    /// An operation declares an implicit parameter whose value cannot
    /// be recovered from the explicit inputs at a call site.
    ///
    /// An implicit parameter must occur as a `Term::Var` somewhere in
    /// the sort expression of at least one explicit input or in the
    /// output sort, so that first-order unification of the declared
    /// input sorts against the call site's actual sorts pins down the
    /// parameter's value. Implicit parameters that do not appear in
    /// such a position are rejected at theory-declaration time.
    NonInferrableImplicit {
        /// The operation name.
        op: String,
        /// The implicit parameter name.
        param: String,
    },

    /// An instance-style binding names a key that is neither a sort
    /// parameter nor an operation of the class theory. Produced by the
    /// `instance!` proc-macro when validating its bindings.
    InstanceBindingUnknown {
        /// The instance name.
        instance: String,
        /// The class theory name.
        class: String,
        /// The offending binding key.
        name: String,
    },

    /// An instance-style declaration passes more type arguments than the
    /// class theory has sort parameters.
    InstanceTypeArgsArity {
        /// The instance name.
        instance: String,
        /// The class theory name.
        class: String,
        /// Number of type arguments passed.
        passed: usize,
        /// Number of sort parameters declared by the class.
        declared: usize,
    },

    /// A rewrite position is invalid: the path descends through a term
    /// variant that does not have the requested child index.
    InvalidRewritePosition {
        /// The path that was requested.
        path: Vec<usize>,
        /// The kind of node that could not be descended into.
        node_kind: String,
    },

    /// An equation (or directed equation) contains one or more typed
    /// holes on its LHS or RHS. Holes are only meaningful inside terms
    /// being typechecked for completion, not in equations that must
    /// hold in every model.
    HolesInEquation {
        /// The equation name.
        equation: String,
        /// The number of holes encountered across both sides.
        count: usize,
    },

    /// An LPO termination check encountered a rewrite rule that contains
    /// a hole on one of its sides. Holes in rewrite rules are not
    /// meaningful for LPO comparison.
    LpoHoleInRule {
        /// The offending rule name.
        rule: String,
    },

    /// Identified elements are incompatible for quotienting.
    QuotientIncompatible {
        /// First element name.
        name_a: String,
        /// Second element name.
        name_b: String,
        /// Reason for incompatibility.
        detail: String,
    },

    /// A colimit inclusion leg induces a non-injective rename: two shared
    /// elements are identified with the same element in one input theory
    /// while their images in the other input theory differ. The pushout
    /// rejects this rather than choosing one image, since the underlying
    /// span is not the disjoint identification the construction assumes.
    NonInjectiveIdentification {
        /// Whether this is a `sort` or an `op`.
        kind: String,
        /// The element in the second theory that both shared elements
        /// map onto.
        shared_image: String,
        /// One of the two conflicting first-theory targets, ordered
        /// deterministically with `second` so the message is stable.
        first: String,
        /// The other conflicting first-theory target.
        second: String,
    },

    /// Model equation checking enumerated more variable assignments for a
    /// single equation than the configured per-equation bound allows, so
    /// the equation was not checked. An empty violation list from the
    /// overall check is therefore not a proof that this equation holds.
    ModelCheckLimitExceeded {
        /// The equation whose assignment space exceeded the bound.
        equation: String,
        /// The number of assignments the equation's variable carriers
        /// would require.
        required: usize,
        /// The configured per-equation assignment bound.
        limit: usize,
    },
}

/// The model of an error: the same variants with plain values.
#[allow(inconsistent_fields)]
pub enum SGatError {
    /// See [`GatError::SortNotFound`].
    SortNotFound(Seq<char>),
    /// See [`GatError::OpNotFound`].
    OpNotFound(Seq<char>),
    /// See [`GatError::TheoryNotFound`].
    TheoryNotFound(Seq<char>),
    /// See [`GatError::SortArityMismatch`].
    SortArityMismatch { sort: Seq<char>, expected: nat, got: nat },
    /// See [`GatError::OpTypeMismatch`].
    OpTypeMismatch { op: Seq<char>, detail: Seq<char> },
    /// See [`GatError::EquationNotPreserved`].
    EquationNotPreserved { equation: Seq<char>, detail: Seq<char> },
    /// See [`GatError::EquationPreservationUnknown`].
    EquationPreservationUnknown { equation: Seq<char>, detail: Seq<char> },
    /// See [`GatError::DirectedEquationNotPreserved`].
    DirectedEquationNotPreserved { equation: Seq<char>, detail: Seq<char> },
    /// See [`GatError::WitnessInvalid`].
    WitnessInvalid { reason: Seq<char> },
    /// See [`GatError::RewriteBudgetExhausted`].
    RewriteBudgetExhausted { context: Seq<char>, limit: nat },
    /// See [`GatError::SortConflict`].
    SortConflict { name: Seq<char> },
    /// See [`GatError::OpConflict`].
    OpConflict { name: Seq<char> },
    /// See [`GatError::EqConflict`].
    EqConflict { name: Seq<char> },
    /// See [`GatError::DirectedEqConflict`].
    DirectedEqConflict { name: Seq<char> },
    /// See [`GatError::PolicyConflict`].
    PolicyConflict { name: Seq<char> },
    /// See [`GatError::MissingSortMapping`].
    MissingSortMapping(Seq<char>),
    /// See [`GatError::MissingOpMapping`].
    MissingOpMapping(Seq<char>),
    /// See [`GatError::ComposeUnmapped`].
    ComposeUnmapped { kind: Seq<char>, name: Seq<char>, image: Seq<char> },
    /// See [`GatError::ComposeDomainMismatch`].
    ComposeDomainMismatch { first_codomain: Seq<char>, second_domain: Seq<char> },
    /// See [`GatError::CyclicDependency`].
    CyclicDependency(Seq<char>),
    /// See [`GatError::ModelError`].
    ModelError(Seq<char>),
    /// See [`GatError::UnboundVariable`].
    UnboundVariable(Seq<char>),
    /// See [`GatError::TermArityMismatch`].
    TermArityMismatch { op: Seq<char>, expected: nat, got: nat },
    /// See [`GatError::ArgTypeMismatch`].
    ArgTypeMismatch { op: Seq<char>, arg_index: nat, expected: Seq<char>, got: Seq<char> },
    /// See [`GatError::EquationSortMismatch`].
    EquationSortMismatch { equation: Seq<char>, lhs_sort: Seq<char>, rhs_sort: Seq<char> },
    /// See [`GatError::ConflictingVarSort`].
    ConflictingVarSort { var: Seq<char>, sort1: Seq<char>, sort2: Seq<char> },
    /// See [`GatError::SortUnificationFailure`].
    SortUnificationFailure { reason: Seq<char> },
    /// See [`GatError::TermAssignmentUnboundVar`].
    TermAssignmentUnboundVar { op: Seq<char>, var: Seq<char> },
    /// See [`GatError::TermAssignmentSortMismatch`].
    TermAssignmentSortMismatch { op: Seq<char>, expected: Seq<char>, got: Seq<char> },
    /// See [`GatError::TermAssignmentIllTyped`].
    TermAssignmentIllTyped { op: Seq<char>, detail: Seq<char> },
    /// See [`GatError::NatTransDomainMismatch`].
    NatTransDomainMismatch { source_morphism: Seq<char>, target_morphism: Seq<char> },
    /// See [`GatError::MissingNatTransComponent`].
    MissingNatTransComponent(Seq<char>),
    /// See [`GatError::NatTransComponentInvalid`].
    NatTransComponentInvalid { sort: Seq<char>, detail: Seq<char> },
    /// See [`GatError::NaturalityViolation`].
    NaturalityViolation { op: Seq<char>, lhs: Seq<char>, rhs: Seq<char> },
    /// See [`GatError::NatTransComposeMismatch`].
    NatTransComposeMismatch { alpha_target: Seq<char>, beta_source: Seq<char> },
    /// See [`GatError::SortKindMismatch`].
    SortKindMismatch { sort: Seq<char>, expected: SortKind, got: SortKind },
    /// See [`GatError::SortParamMismatch`].
    SortParamMismatch { sort: Seq<char>, param_index: nat, expected: Seq<char>, got: Seq<char> },
    /// See [`GatError::HorizontalComposeMismatch`].
    HorizontalComposeMismatch { g_codomain: Seq<char>, h_domain: Seq<char> },
    /// See [`GatError::FactorizationError`].
    FactorizationError(Seq<char>),
    /// See [`GatError::CyclicSortDependency`].
    CyclicSortDependency(Seq<Seq<char>>),
    /// See [`GatError::VarSortInferenceFailed`].
    VarSortInferenceFailed { equation: Seq<char>, detail: Seq<char> },
    /// See [`GatError::NonExhaustiveCase`].
    NonExhaustiveCase { sort: Seq<char>, missing: Seq<Seq<char>> },
    /// See [`GatError::RedundantCaseBranch`].
    RedundantCaseBranch { sort: Seq<char>, constructor: Seq<char> },
    /// See [`GatError::UnknownCaseConstructor`].
    UnknownCaseConstructor { sort: Seq<char>, constructor: Seq<char> },
    /// See [`GatError::CaseOnOpenSort`].
    CaseOnOpenSort { sort: Seq<char> },
    /// See [`GatError::InvalidClosedSortConstructor`].
    InvalidClosedSortConstructor { sort: Seq<char>, constructor: Seq<char>, detail: Seq<char> },
    /// See [`GatError::MorphismClosureMismatch`].
    MorphismClosureMismatch { sort: Seq<char>, expected: Seq<Seq<char>>, got: Seq<Seq<char>> },
    /// See [`GatError::NonInferrableImplicit`].
    NonInferrableImplicit { op: Seq<char>, param: Seq<char> },
    /// See [`GatError::InstanceBindingUnknown`].
    InstanceBindingUnknown { instance: Seq<char>, class: Seq<char>, name: Seq<char> },
    /// See [`GatError::InstanceTypeArgsArity`].
    InstanceTypeArgsArity { instance: Seq<char>, class: Seq<char>, passed: nat, declared: nat },
    /// See [`GatError::InvalidRewritePosition`].
    InvalidRewritePosition { path: Seq<usize>, node_kind: Seq<char> },
    /// See [`GatError::HolesInEquation`].
    HolesInEquation { equation: Seq<char>, count: nat },
    /// See [`GatError::LpoHoleInRule`].
    LpoHoleInRule { rule: Seq<char> },
    /// See [`GatError::QuotientIncompatible`].
    QuotientIncompatible { name_a: Seq<char>, name_b: Seq<char>, detail: Seq<char> },
    /// See [`GatError::NonInjectiveIdentification`].
    NonInjectiveIdentification { kind: Seq<char>, shared_image: Seq<char>, first: Seq<char>, second: Seq<char> },
    /// See [`GatError::ModelCheckLimitExceeded`].
    ModelCheckLimitExceeded { equation: Seq<char>, required: nat, limit: nat },
}

impl View for GatError {
    type V = SGatError;

    open spec fn view(&self) -> SGatError {
        match self {
            GatError::SortNotFound(a0) => SGatError::SortNotFound(a0@),
            GatError::OpNotFound(a0) => SGatError::OpNotFound(a0@),
            GatError::TheoryNotFound(a0) => SGatError::TheoryNotFound(a0@),
            GatError::SortArityMismatch { sort, expected, got } => SGatError::SortArityMismatch { sort: sort@, expected: *expected as nat, got: *got as nat },
            GatError::OpTypeMismatch { op, detail } => SGatError::OpTypeMismatch { op: op@, detail: detail@ },
            GatError::EquationNotPreserved { equation, detail } => SGatError::EquationNotPreserved { equation: equation@, detail: detail@ },
            GatError::EquationPreservationUnknown { equation, detail } => SGatError::EquationPreservationUnknown { equation: equation@, detail: detail@ },
            GatError::DirectedEquationNotPreserved { equation, detail } => SGatError::DirectedEquationNotPreserved { equation: equation@, detail: detail@ },
            GatError::WitnessInvalid { reason } => SGatError::WitnessInvalid { reason: reason@ },
            GatError::RewriteBudgetExhausted { context, limit } => SGatError::RewriteBudgetExhausted { context: context@, limit: *limit as nat },
            GatError::SortConflict { name } => SGatError::SortConflict { name: name@ },
            GatError::OpConflict { name } => SGatError::OpConflict { name: name@ },
            GatError::EqConflict { name } => SGatError::EqConflict { name: name@ },
            GatError::DirectedEqConflict { name } => SGatError::DirectedEqConflict { name: name@ },
            GatError::PolicyConflict { name } => SGatError::PolicyConflict { name: name@ },
            GatError::MissingSortMapping(a0) => SGatError::MissingSortMapping(a0@),
            GatError::MissingOpMapping(a0) => SGatError::MissingOpMapping(a0@),
            GatError::ComposeUnmapped { kind, name, image } => SGatError::ComposeUnmapped { kind: kind@, name: name@, image: image@ },
            GatError::ComposeDomainMismatch { first_codomain, second_domain } => SGatError::ComposeDomainMismatch { first_codomain: first_codomain@, second_domain: second_domain@ },
            GatError::CyclicDependency(a0) => SGatError::CyclicDependency(a0@),
            GatError::ModelError(a0) => SGatError::ModelError(a0@),
            GatError::UnboundVariable(a0) => SGatError::UnboundVariable(a0@),
            GatError::TermArityMismatch { op, expected, got } => SGatError::TermArityMismatch { op: op@, expected: *expected as nat, got: *got as nat },
            GatError::ArgTypeMismatch { op, arg_index, expected, got } => SGatError::ArgTypeMismatch { op: op@, arg_index: *arg_index as nat, expected: expected@, got: got@ },
            GatError::EquationSortMismatch { equation, lhs_sort, rhs_sort } => SGatError::EquationSortMismatch { equation: equation@, lhs_sort: lhs_sort@, rhs_sort: rhs_sort@ },
            GatError::ConflictingVarSort { var, sort1, sort2 } => SGatError::ConflictingVarSort { var: var@, sort1: sort1@, sort2: sort2@ },
            GatError::SortUnificationFailure { reason } => SGatError::SortUnificationFailure { reason: reason@ },
            GatError::TermAssignmentUnboundVar { op, var } => SGatError::TermAssignmentUnboundVar { op: op@, var: var@ },
            GatError::TermAssignmentSortMismatch { op, expected, got } => SGatError::TermAssignmentSortMismatch { op: op@, expected: expected@, got: got@ },
            GatError::TermAssignmentIllTyped { op, detail } => SGatError::TermAssignmentIllTyped { op: op@, detail: detail@ },
            GatError::NatTransDomainMismatch { source_morphism, target_morphism } => SGatError::NatTransDomainMismatch { source_morphism: source_morphism@, target_morphism: target_morphism@ },
            GatError::MissingNatTransComponent(a0) => SGatError::MissingNatTransComponent(a0@),
            GatError::NatTransComponentInvalid { sort, detail } => SGatError::NatTransComponentInvalid { sort: sort@, detail: detail@ },
            GatError::NaturalityViolation { op, lhs, rhs } => SGatError::NaturalityViolation { op: op@, lhs: lhs@, rhs: rhs@ },
            GatError::NatTransComposeMismatch { alpha_target, beta_source } => SGatError::NatTransComposeMismatch { alpha_target: alpha_target@, beta_source: beta_source@ },
            GatError::SortKindMismatch { sort, expected, got } => SGatError::SortKindMismatch { sort: sort@, expected: *expected, got: *got },
            GatError::SortParamMismatch { sort, param_index, expected, got } => SGatError::SortParamMismatch { sort: sort@, param_index: *param_index as nat, expected: expected@, got: got@ },
            GatError::HorizontalComposeMismatch { g_codomain, h_domain } => SGatError::HorizontalComposeMismatch { g_codomain: g_codomain@, h_domain: h_domain@ },
            GatError::FactorizationError(a0) => SGatError::FactorizationError(a0@),
            GatError::CyclicSortDependency(a0) => SGatError::CyclicSortDependency(Seq::new(a0@.len(), |i: int| a0@[i]@)),
            GatError::VarSortInferenceFailed { equation, detail } => SGatError::VarSortInferenceFailed { equation: equation@, detail: detail@ },
            GatError::NonExhaustiveCase { sort, missing } => SGatError::NonExhaustiveCase { sort: sort@, missing: Seq::new(missing@.len(), |i: int| missing@[i]@) },
            GatError::RedundantCaseBranch { sort, constructor } => SGatError::RedundantCaseBranch { sort: sort@, constructor: constructor@ },
            GatError::UnknownCaseConstructor { sort, constructor } => SGatError::UnknownCaseConstructor { sort: sort@, constructor: constructor@ },
            GatError::CaseOnOpenSort { sort } => SGatError::CaseOnOpenSort { sort: sort@ },
            GatError::InvalidClosedSortConstructor { sort, constructor, detail } => SGatError::InvalidClosedSortConstructor { sort: sort@, constructor: constructor@, detail: detail@ },
            GatError::MorphismClosureMismatch { sort, expected, got } => SGatError::MorphismClosureMismatch { sort: sort@, expected: Seq::new(expected@.len(), |i: int| expected@[i]@), got: Seq::new(got@.len(), |i: int| got@[i]@) },
            GatError::NonInferrableImplicit { op, param } => SGatError::NonInferrableImplicit { op: op@, param: param@ },
            GatError::InstanceBindingUnknown { instance, class, name } => SGatError::InstanceBindingUnknown { instance: instance@, class: class@, name: name@ },
            GatError::InstanceTypeArgsArity { instance, class, passed, declared } => SGatError::InstanceTypeArgsArity { instance: instance@, class: class@, passed: *passed as nat, declared: *declared as nat },
            GatError::InvalidRewritePosition { path, node_kind } => SGatError::InvalidRewritePosition { path: path@, node_kind: node_kind@ },
            GatError::HolesInEquation { equation, count } => SGatError::HolesInEquation { equation: equation@, count: *count as nat },
            GatError::LpoHoleInRule { rule } => SGatError::LpoHoleInRule { rule: rule@ },
            GatError::QuotientIncompatible { name_a, name_b, detail } => SGatError::QuotientIncompatible { name_a: name_a@, name_b: name_b@, detail: detail@ },
            GatError::NonInjectiveIdentification { kind, shared_image, first, second } => SGatError::NonInjectiveIdentification { kind: kind@, shared_image: shared_image@, first: first@, second: second@ },
            GatError::ModelCheckLimitExceeded { equation, required, limit } => SGatError::ModelCheckLimitExceeded { equation: equation@, required: *required as nat, limit: *limit as nat },
        }
    }
}

} // verus!
