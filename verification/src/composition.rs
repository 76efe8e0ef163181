//! Declarative recipes that compose theories by successive pushouts, and
//! their replay against a registry of theories.
use vstd::prelude::*;
use vstd::string::*;

use crate::colimit::{colimit_by_name, colimit_model};
use crate::error::{GatError, SGatError};
use crate::maps::{entries_map, NameMap};
use crate::op::{Operation, SOperation};
use crate::sort::{SSort, Sort, SortKind};
use crate::term::names_view;
use crate::text::{decimal, decimal_string};
use crate::schema_functor::model_op_names;
use crate::theory::{first_named, op_names, STheory, Theory};

verus! {

/// One step of a composition recipe.
#[derive(Debug, PartialEq, Eq)]
pub enum CompositionStep {
    /// A named theory of the registry (or of an earlier step).
    Base(String),
    /// The pushout of two theories over the named shared sorts and
    /// operations.
    Colimit {
        /// The left theory's name.
        left: String,
        /// The right theory's name.
        right: String,
        /// Sort names shared by the two theories.
        shared_sorts: Vec<String>,
        /// Operation names shared by the two theories; each must exist in
        /// both.
        shared_ops: Vec<String>,
    },
}

/// A recipe composing theories by pushouts.
#[derive(Debug, PartialEq, Eq)]
pub struct CompositionSpec {
    /// The name of the composed theory.
    pub result_name: String,
    /// The steps, in order.
    pub steps: Vec<CompositionStep>,
}

/// The model of a composition step.
pub enum SStep {
    /// See [`CompositionStep::Base`].
    Base(Seq<char>),
    /// See [`CompositionStep::Colimit`].
    Colimit { left: Seq<char>, right: Seq<char>, shared_sorts: Seq<Seq<char>>, shared_ops: Seq<Seq<char>> },
}

impl View for CompositionStep {
    type V = SStep;

    open spec fn view(&self) -> SStep {
        match self {
            CompositionStep::Base(n) => SStep::Base(n@),
            CompositionStep::Colimit { left, right, shared_sorts, shared_ops } => SStep::Colimit {
                left: left@,
                right: right@,
                shared_sorts: names_view(shared_sorts@),
                shared_ops: names_view(shared_ops@),
            },
        }
    }
}

/// The models of a list of steps.
pub open spec fn steps_view(v: Seq<CompositionStep>) -> Seq<SStep> {
    Seq::new(v.len(), |i: int| v[i]@)
}

/// The name under which step `i` stores its result: `step_i`.
pub open spec fn step_label(i: nat) -> Seq<char> {
    "step_"@ + decimal(i)
}

/// The model of a simple structural open sort.
pub open spec fn simple_sort_model(n: Seq<char>) -> SSort {
    SSort { name: n, params: Seq::empty(), kind: SortKind::Structure, closure: None }
}

/// The error for a shared operation that the left (or, unless `left`,
/// the right) theory lacks.
pub open spec fn missing_shared_op(op: Seq<char>, left: bool, theory: Seq<char>) -> SGatError {
    SGatError::FactorizationError(
        "shared operation '"@ + op + "' not found in "@ + (if left {
            "left"@
        } else {
            "right"@
        }) + " theory '"@ + theory + "'"@,
    )
}

/// The shared operations from position `i` on, each the left theory's
/// first operation of that name; a name the left (checked first) or the
/// right theory lacks is an error.
pub open spec fn shared_ops_from(
    left: STheory,
    right: STheory,
    lname: Seq<char>,
    rname: Seq<char>,
    names: Seq<Seq<char>>,
    i: int,
    acc: Seq<SOperation>,
) -> Result<Seq<SOperation>, SGatError>
    decreases (if 0 <= i < names.len() { names.len() - i } else { 0 }) as nat,
{
    if 0 <= i < names.len() {
        match first_named(model_op_names(left), names[i]) {
            None => Err(missing_shared_op(names[i], true, lname)),
            Some(k) => if first_named(model_op_names(right), names[i]) is None {
                Err(missing_shared_op(names[i], false, rname))
            } else {
                shared_ops_from(left, right, lname, rname, names, i + 1, acc.push(left.ops[k]))
            },
        }
    } else {
        Ok(acc)
    }
}

/// The shared theory of a pushout step: named after the step, the named
/// sorts as simple sorts, the given operations, nothing else.
pub open spec fn shared_theory(i: nat, sorts: Seq<Seq<char>>, ops: Seq<SOperation>) -> STheory {
    STheory {
        name: step_label(i),
        extends: Seq::empty(),
        sorts: Seq::new(sorts.len(), |k: int| simple_sort_model(sorts[k])),
        ops: ops,
        eqs: Seq::empty(),
        directed_eqs: Seq::empty(),
        policies: Seq::empty(),
    }
}

/// The pushout step `i` over the theories `inter`: both sides looked up
/// (left first), the shared operations collected, and the pushout by
/// names taken over the step's shared theory.
pub open spec fn pushout_step(
    inter: Map<Seq<char>, STheory>,
    i: nat,
    left: Seq<char>,
    right: Seq<char>,
    shared_sorts: Seq<Seq<char>>,
    shared_ops: Seq<Seq<char>>,
) -> Result<STheory, SGatError> {
    if !inter.contains_key(left) {
        Err(SGatError::TheoryNotFound(left))
    } else if !inter.contains_key(right) {
        Err(SGatError::TheoryNotFound(right))
    } else {
        match shared_ops_from(inter[left], inter[right], left, right, shared_ops, 0, Seq::empty()) {
            Err(e) => Err(e),
            Ok(ops) => colimit_model(inter[left], inter[right], shared_theory(i, shared_sorts, ops)),
        }
    }
}

/// Replay the steps from position `i` on over the theories `inter`,
/// `last` naming the latest result: a base step names a theory; a pushout
/// step looks up both sides, collects the shared operations, takes the
/// pushout by names and stores it as `step_i`. The first error stops.
pub open spec fn replay_from(
    steps: Seq<SStep>,
    i: int,
    inter: Map<Seq<char>, STheory>,
    last: Option<Seq<char>>,
) -> Result<(Map<Seq<char>, STheory>, Option<Seq<char>>), SGatError>
    decreases (if 0 <= i < steps.len() { steps.len() - i } else { 0 }) as nat,
{
    if 0 <= i < steps.len() {
        match steps[i] {
            SStep::Base(n) => if !inter.contains_key(n) {
                Err(SGatError::TheoryNotFound(n))
            } else {
                replay_from(steps, i + 1, inter, Some(n))
            },
            SStep::Colimit { left, right, shared_sorts, shared_ops } => match pushout_step(inter, i as nat, left, right, shared_sorts, shared_ops) {
                Err(e) => Err(e),
                Ok(t) => replay_from(steps, i + 1, inter.insert(step_label(i as nat), t), Some(step_label(i as nat))),
            },
        }
    } else {
        Ok((inter, last))
    }
}

/// The error for a recipe with no steps.
pub open spec fn empty_recipe_error(result_name: Seq<char>) -> SGatError {
    SGatError::TheoryNotFound("empty composition spec for '"@ + result_name + "'"@)
}

/// What [`recompose`] gives: the last step's theory renamed to the
/// recipe's result name, or the first error.
pub open spec fn recompose_spec(result_name: Seq<char>, steps: Seq<SStep>, registry: Map<Seq<char>, STheory>) -> Result<STheory, SGatError> {
    match replay_from(steps, 0, registry, None) {
        Err(e) => Err(e),
        Ok((inter, last)) => match last {
            None => Err(empty_recipe_error(result_name)),
            Some(n) => Ok(STheory { name: result_name, ..inter[n] }),
        },
    }
}

fn copy_registry(r: &NameMap<Theory>) -> (out: NameMap<Theory>)
    ensures
        out@ == r@,
{
    let mut es: Vec<(String, Theory)> = Vec::new();
    let mut i: usize = 0;
    while i < r.entries.len()
        invariant
            i <= r.entries@.len(),
            es@.len() == i,
            forall|j: int| 0 <= j < i ==> #[trigger] es@[j].0@ == r.entries@[j].0@ && es@[j].1@ == r.entries@[j].1@,
        decreases r.entries@.len() - i,
    {
        let e = &r.entries[i];
        es.push((e.0.clone(), e.1.copy()));
        i = i + 1;
    }
    let out = NameMap { entries: es };
    proof {
        crate::maps::lemma_entries_map_pointwise(out.entries@, r.entries@);
    }
    out
}

fn missing_shared_op_exec(op: &String, left: bool, theory: &String) -> (e: GatError)
    ensures
        e@ == missing_shared_op(op@, left, theory@),
{
    proof {
        reveal_strlit("shared operation '");
        reveal_strlit("' not found in ");
        reveal_strlit("left");
        reveal_strlit("right");
        reveal_strlit(" theory '");
        reveal_strlit("'");
    }
    let mut msg = String::new();
    msg.append("shared operation '");
    msg.append(op.as_str());
    msg.append("' not found in ");
    if left {
        msg.append("left");
    } else {
        msg.append("right");
    }
    msg.append(" theory '");
    msg.append(theory.as_str());
    msg.append("'");
    proof {
        let side: Seq<char> = if left {
            "left"@
        } else {
            "right"@
        };
        assert(msg@ =~= "shared operation '"@ + op@ + "' not found in "@ + side + " theory '"@ + theory@ + "'"@);
    }
    GatError::FactorizationError(msg)
}

/// The model of a theory's operation names.
proof fn lemma_op_names_model(t: Theory)
    ensures
        op_names(t.ops@) == model_op_names(t@),
{
    assert(op_names(t.ops@) =~= model_op_names(t@));
}

/// One collected shared operation.
proof fn lemma_shared_step(
    lm: STheory,
    rm: STheory,
    ln: Seq<char>,
    rn: Seq<char>,
    nv: Seq<Seq<char>>,
    i: int,
    acc: Seq<SOperation>,
    k: int,
)
    requires
        0 <= i < nv.len(),
        first_named(model_op_names(lm), nv[i]) == Some(k),
        first_named(model_op_names(rm), nv[i]) is Some,
    ensures
        shared_ops_from(lm, rm, ln, rn, nv, i, acc) == shared_ops_from(lm, rm, ln, rn, nv, i + 1, acc.push(lm.ops[k])),
{
}

#[verifier::rlimit(50)]
fn collect_shared_ops(left: &Theory, right: &Theory, lname: &String, rname: &String, names: &Vec<String>) -> (r: Result<Vec<Operation>, GatError>)
    ensures
        match shared_ops_from(left@, right@, lname@, rname@, names_view(names@), 0, Seq::empty()) {
            Ok(ops) => r matches Ok(v) && Seq::new(v@.len(), |k: int| v@[k]@) == ops,
            Err(e) => r matches Err(x) && x@ == e,
        },
{
    let ghost nv = names_view(names@);
    proof {
        lemma_op_names_model(*left);
        lemma_op_names_model(*right);
    }
    let mut out: Vec<Operation> = Vec::new();
    let ghost mut acc: Seq<SOperation> = Seq::empty();
    let ghost lm = left@;
    let ghost rm = right@;
    let mut i: usize = 0;
    while i < names.len()
        invariant
            nv == names_view(names@),
            lm == left@,
            rm == right@,
            i <= nv.len(),
            op_names(left.ops@) == model_op_names(lm),
            op_names(right.ops@) == model_op_names(rm),
            acc == Seq::new(out@.len(), |k: int| out@[k]@),
            shared_ops_from(lm, rm, lname@, rname@, nv, 0, Seq::empty()) == shared_ops_from(lm, rm, lname@, rname@, nv, i as int, acc),
        decreases nv.len() - i,
    {
        let n = &names[i];
        proof {
            assert(nv[i as int] == n@);
        }
        let found = left.find_op(n.as_str());
        match found {
            None => {
                return Err(missing_shared_op_exec(n, true, lname));
            },
            Some(o) => {
                if !right.has_op(n.as_str()) {
                    return Err(missing_shared_op_exec(n, false, rname));
                }
                let ghost k = first_named(op_names(left.ops@), n@)->Some_0;
                proof {
                    crate::theory::lemma_first_named(op_names(left.ops@), n@);
                    crate::theory::lemma_first_named(op_names(right.ops@), n@);
                    assert(o@ == lm.ops[k]);
                    lemma_shared_step(lm, rm, lname@, rname@, nv, i as int, acc, k);
                }
                out.push(o.copy());
                proof {
                    assert(Seq::new(out@.len(), |q: int| out@[q]@) =~= acc.push(lm.ops[k]));
                    acc = acc.push(lm.ops[k]);
                }
            },
        }
        i = i + 1;
    }
    Ok(out)
}

fn step_name_exec(i: usize) -> (r: String)
    ensures
        r@ == step_label(i as nat),
{
    proof {
        reveal_strlit("step_");
    }
    let mut s = String::new();
    s.append("step_");
    s.append(decimal_string(i).as_str());
    proof {
        assert(s@ =~= step_label(i as nat));
    }
    s
}

fn simple_sorts(names: &Vec<String>) -> (r: Vec<Sort>)
    ensures
        Seq::new(r@.len(), |k: int| r@[k]@) == Seq::new(names@.len(), |k: int| simple_sort_model(names@[k]@)),
{
    let mut out: Vec<Sort> = Vec::new();
    let mut i: usize = 0;
    while i < names.len()
        invariant
            i <= names@.len(),
            out@.len() == i,
            forall|k: int| 0 <= k < i ==> #[trigger] out@[k]@ == simple_sort_model(names@[k]@),
        decreases names@.len() - i,
    {
        let s = Sort::simple(names[i].as_str());
        proof {
            assert(s@.params =~= Seq::empty());
        }
        out.push(s);
        i = i + 1;
    }
    assert(Seq::new(out@.len(), |k: int| out@[k]@) =~= Seq::new(names@.len(), |k: int| simple_sort_model(names@[k]@)));
    out
}

fn empty_recipe_exec(result_name: &String) -> (e: GatError)
    ensures
        e@ == empty_recipe_error(result_name@),
{
    proof {
        reveal_strlit("empty composition spec for '");
        reveal_strlit("'");
    }
    let mut msg = String::new();
    msg.append("empty composition spec for '");
    msg.append(result_name.as_str());
    msg.append("'");
    proof {
        assert(msg@ =~= "empty composition spec for '"@ + result_name@ + "'"@);
    }
    GatError::TheoryNotFound(msg)
}

fn pushout_step_exec(
    inter: &NameMap<Theory>,
    i: usize,
    left: &String,
    right: &String,
    shared_sorts: &Vec<String>,
    shared_ops: &Vec<String>,
) -> (r: Result<Theory, GatError>)
    ensures
        match pushout_step(inter@, i as nat, left@, right@, names_view(shared_sorts@), names_view(shared_ops@)) {
            Ok(t) => r matches Ok(x) && x@ == t,
            Err(e) => r matches Err(x) && x@ == e,
        },
{
    let left_theory = match inter.get(left) {
        Some(t) => t.copy(),
        None => {
            return Err(GatError::TheoryNotFound(left.clone()));
        },
    };
    let right_theory = match inter.get(right) {
        Some(t) => t.copy(),
        None => {
            return Err(GatError::TheoryNotFound(right.clone()));
        },
    };
    let ops = match collect_shared_ops(&left_theory, &right_theory, left, right, shared_ops) {
        Ok(v) => v,
        Err(e) => {
            return Err(e);
        },
    };
    let name = step_name_exec(i);
    let ghost ops_model = Seq::new(ops@.len(), |k: int| ops@[k]@);
    let shared = Theory::new(name.as_str(), simple_sorts(shared_sorts), ops, Vec::new());
    proof {
        let st = shared_theory(i as nat, names_view(shared_sorts@), ops_model);
        assert(shared@.sorts =~= st.sorts);
        assert(shared@.ops =~= st.ops);
        assert(shared@.eqs =~= st.eqs);
        assert(shared@.directed_eqs =~= st.directed_eqs);
        assert(shared@.policies =~= st.policies);
        assert(shared@.extends =~= st.extends);
    }
    colimit_by_name(&left_theory, &right_theory, &shared)
}

/// Replay a composition recipe against a registry of theories: each step
/// names a theory or computes a pushout by names (stored as `step_i`),
/// and the last step's theory is returned under the recipe's result name.
pub fn recompose(spec: &CompositionSpec, registry: &NameMap<Theory>) -> (r: Result<Theory, GatError>)
    ensures
        match recompose_spec(spec.result_name@, steps_view(spec.steps@), registry@) {
            Ok(t) => r matches Ok(x) && x@ == t,
            Err(e) => r matches Err(x) && x@ == e,
        },
{
    let ghost steps = steps_view(spec.steps@);
    let mut inter = copy_registry(registry);
    let mut last: Option<String> = None;
    let mut i: usize = 0;
    while i < spec.steps.len()
        invariant
            steps == steps_view(spec.steps@),
            i <= steps.len(),
            replay_from(steps, 0, registry@, None) == replay_from(
                steps,
                i as int,
                inter@,
                crate::term::opt_name_view(last),
            ),
            last matches Some(n) ==> inter@.contains_key(n@),
        decreases steps.len() - i,
    {
        let step = &spec.steps[i];
        proof {
            assert(steps[i as int] == step@);
        }
        match step {
            CompositionStep::Base(n) => {
                if !inter.contains_key(n) {
                    return Err(GatError::TheoryNotFound(n.clone()));
                }
                last = Some(n.clone());
            },
            CompositionStep::Colimit { left, right, shared_sorts, shared_ops } => {
                let result = match pushout_step_exec(&inter, i, left, right, shared_sorts, shared_ops) {
                    Ok(t) => t,
                    Err(e) => {
                        return Err(e);
                    },
                };
                let name = step_name_exec(i);
                inter.insert(name.clone(), result);
                last = Some(name);
            },
        }
        i = i + 1;
    }
    let final_name = match last {
        Some(n) => n,
        None => {
            return Err(empty_recipe_exec(&spec.result_name));
        },
    };
    let mut theory = match inter.get(&final_name) {
        Some(t) => t.copy(),
        None => {
            return Err(GatError::TheoryNotFound(final_name.clone()));
        },
    };
    theory.name = spec.result_name.clone();
    Ok(theory)
}

} // verus!
