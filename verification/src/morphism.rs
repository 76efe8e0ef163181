//! Theory morphisms: structure-preserving maps between theories.
use vstd::prelude::*;
use vstd::string::*;

use crate::alpha::{alpha_equiv_equation, alpha_equivalent_equation};
use crate::eq::{DirectedEquation, Equation, rename_ops_spec, subst};
use crate::error::{GatError, SGatError};
use crate::ident::{NameSite, SiteRename};
use crate::maps::{RenameMap, entries_map, entry_live, lemma_entries_map_dom, lemma_entries_map_last, lemma_entries_map_live, map_name};
use crate::op::Operation;
use crate::sort::{SSortExpr, Sort, SortExpr, params_view, positional_param_rename, positional_rename, subst_sort};
use crate::term::{STerm, Term};
use crate::text::{decimal, decimal_string, lemma_sort_text_normal, sort_model_text, sort_text};
use crate::theory::{Theory, first_named, op_names, sort_names};

verus! {

/// A map between theories: sorts to sorts and operations to operations.
#[derive(Debug)]
pub struct TheoryMorphism {
    /// The morphism's name.
    pub name: String,
    /// The domain theory's name.
    pub domain: String,
    /// The codomain theory's name.
    pub codomain: String,
    /// Domain sort name to codomain sort name.
    pub sort_map: RenameMap,
    /// Domain operation name to codomain operation name.
    pub op_map: RenameMap,
}

/// A sort expression model with its head renamed by `sm` and the
/// operations of its arguments by `om`.
pub open spec fn apply_maps_spec(e: SSortExpr, sm: Map<Seq<char>, Seq<char>>, om: Map<Seq<char>, Seq<char>>) -> SSortExpr {
    SSortExpr { head: map_name(sm, e.head), args: Seq::new(e.args.len(), |i: int| rename_ops_spec(e.args[i], om)) }
}

/// The composite of two name maps: defined where the second is defined
/// on the first's image.
pub open spec fn compose_maps(f: Map<Seq<char>, Seq<char>>, g: Map<Seq<char>, Seq<char>>) -> Map<Seq<char>, Seq<char>> {
    Map::new(|a: Seq<char>| f.contains_key(a), |a: Seq<char>| g[f[a]])
}

/// Every image of `f` is in the domain of `g`.
pub open spec fn composable(f: Map<Seq<char>, Seq<char>>, g: Map<Seq<char>, Seq<char>>) -> bool {
    forall|a: Seq<char>| #[trigger] f.contains_key(a) ==> g.contains_key(f[a])
}

/// The map sending each of the names to itself.
pub open spec fn identity_map(names: Seq<Seq<char>>) -> Map<Seq<char>, Seq<char>> {
    Map::new(|a: Seq<char>| names.contains(a), |a: Seq<char>| a)
}

/// The text of a composite's name: `f;g`.
pub open spec fn composite_name(f: Seq<char>, g: Seq<char>) -> Seq<char> {
    f + ";"@ + g
}

/// Appending a name extends the identity map by that name.
pub proof fn lemma_identity_map_push(s: Seq<Seq<char>>, x: Seq<char>)
    ensures
        identity_map(s.push(x)) == identity_map(s).insert(x, x),
{
    assert forall|a: Seq<char>| #[trigger] s.push(x).contains(a) <==> (s.contains(a) || a == x) by {
        if s.push(x).contains(a) {
            let k = choose|k: int| 0 <= k < s.push(x).len() && s.push(x)[k] == a;
            if k < s.len() {
                assert(s[k] == a);
            }
        }
        if s.contains(a) {
            let k = choose|k: int| 0 <= k < s.len() && s[k] == a;
            assert(s.push(x)[k] == a);
        }
        if a == x {
            assert(s.push(x)[s.len() as int] == a);
        }
    }
    assert(identity_map(s.push(x)) =~= identity_map(s).insert(x, x));
}

impl TheoryMorphism {
    /// A morphism.
    pub fn new(name: &str, domain: &str, codomain: &str, sort_map: RenameMap, op_map: RenameMap) -> (r: TheoryMorphism)
        ensures
            r.name@ == name@,
            r.domain@ == domain@,
            r.codomain@ == codomain@,
            r.sort_map == sort_map,
            r.op_map == op_map,
    {
        TheoryMorphism {
            name: name.to_owned(),
            domain: domain.to_owned(),
            codomain: codomain.to_owned(),
            sort_map,
            op_map,
        }
    }

    /// Rename the operations of a term through the operation map.
    pub fn apply_to_term(&self, term: &Term) -> (r: Term)
        ensures
            r@ == rename_ops_spec(term@, self.op_map@),
    {
        term.rename_ops(&self.op_map)
    }

    /// The identity morphism on a theory, named `id_` followed by the
    /// theory's name.
    pub fn identity(theory: &Theory) -> (r: TheoryMorphism)
        ensures
            r.name@ == "id_"@ + theory.name@,
            r.domain@ == theory.name@,
            r.codomain@ == theory.name@,
            r.sort_map@ == identity_map(sort_names(theory.sorts@)),
            r.op_map@ == identity_map(op_names(theory.ops@)),
    {
        let ghost sn = sort_names(theory.sorts@);
        let ghost on = op_names(theory.ops@);
        let mut sort_map = RenameMap::new();
        let mut i: usize = 0;
        while i < theory.sorts.len()
            invariant
                sn == sort_names(theory.sorts@),
                i <= theory.sorts@.len(),
                sort_map@ == identity_map(sn.take(i as int)),
            decreases theory.sorts@.len() - i,
        {
            sort_map.insert(theory.sorts[i].name.clone(), theory.sorts[i].name.clone());
            proof {
                assert(sn.take(i + 1) =~= sn.take(i as int).push(sn[i as int]));
                lemma_identity_map_push(sn.take(i as int), sn[i as int]);
            }
            i = i + 1;
        }
        proof {
            assert(sn.take(sn.len() as int) =~= sn);
        }
        let mut op_map = RenameMap::new();
        let mut i: usize = 0;
        while i < theory.ops.len()
            invariant
                on == op_names(theory.ops@),
                i <= theory.ops@.len(),
                op_map@ == identity_map(on.take(i as int)),
            decreases theory.ops@.len() - i,
        {
            op_map.insert(theory.ops[i].name.clone(), theory.ops[i].name.clone());
            proof {
                assert(on.take(i + 1) =~= on.take(i as int).push(on[i as int]));
                lemma_identity_map_push(on.take(i as int), on[i as int]);
            }
            i = i + 1;
        }
        proof {
            assert(on.take(on.len() as int) =~= on);
            reveal_strlit("id_");
        }
        let mut name = String::new();
        name.append("id_");
        name.append(theory.name.as_str());
        TheoryMorphism {
            name,
            domain: theory.name.clone(),
            codomain: theory.name.clone(),
            sort_map,
            op_map,
        }
    }

    /// Compose `self: A → B` with `other: B → C` into `A → C`, named
    /// `self;other`. Fails with `ComposeUnmapped` when some sort (checked
    /// first) or operation image of `self` has no mapping in `other`.
    pub fn compose(&self, other: &TheoryMorphism) -> (r: Result<TheoryMorphism, GatError>)
        ensures
            r is Ok <==> composable(self.sort_map@, other.sort_map@) && composable(self.op_map@, other.op_map@),
            r matches Ok(c) ==> c.name@ == composite_name(self.name@, other.name@) && c.domain@ == self.domain@
                && c.codomain@ == other.codomain@ && c.sort_map@ == compose_maps(self.sort_map@, other.sort_map@)
                && c.op_map@ == compose_maps(self.op_map@, other.op_map@),
            r matches Err(e) ==> (if !composable(self.sort_map@, other.sort_map@) {
                e@ matches SGatError::ComposeUnmapped { kind, name, image } && kind == "sort"@
                    && self.sort_map@.contains_key(name) && self.sort_map@[name] == image && !other.sort_map@.contains_key(image)
            } else {
                e@ matches SGatError::ComposeUnmapped { kind, name, image } && kind == "op"@
                    && self.op_map@.contains_key(name) && self.op_map@[name] == image && !other.op_map@.contains_key(image)
            }),
    {
        let sort_map = match compose_name_maps(&self.sort_map, &other.sort_map) {
            Ok(m) => m,
            Err((a, b)) => {
                let mut kind = String::new();
                kind.append("sort");
                return Err(GatError::ComposeUnmapped { kind, name: a, image: b });
            },
        };
        let op_map = match compose_name_maps(&self.op_map, &other.op_map) {
            Ok(m) => m,
            Err((a, b)) => {
                let mut kind = String::new();
                kind.append("op");
                return Err(GatError::ComposeUnmapped { kind, name: a, image: b });
            },
        };
        let mut name = self.name.clone();
        name.append(";");
        name.append(other.name.as_str());
        Ok(TheoryMorphism { name, domain: self.domain.clone(), codomain: other.codomain.clone(), sort_map, op_map })
    }

    /// The schema-level renames this morphism induces: a vertex-kind rename
    /// for each sort mapped to a different name, then an edge-kind rename
    /// for each operation mapped to a different name.
    pub fn induce_schema_renames(&self) -> (r: Vec<SiteRename>)
        ensures
            forall|k: int| 0 <= k < r@.len() ==> {
                let x = #[trigger] r@[k];
                (x.site == NameSite::VertexKind && self.sort_map@.contains_key(x.old@) && self.sort_map@[x.old@] == x.new@)
                    || (x.site == NameSite::EdgeKind && self.op_map@.contains_key(x.old@) && self.op_map@[x.old@] == x.new@)
            },
            forall|k: int| 0 <= k < r@.len() ==> (#[trigger] r@[k]).old@ != r@[k].new@,
            forall|a: Seq<char>| #[trigger] self.sort_map@.contains_key(a) && self.sort_map@[a] != a ==> exists|k: int|
                0 <= k < r@.len() && r@[k].site == NameSite::VertexKind && #[trigger] r@[k].old@ == a,
            forall|a: Seq<char>| #[trigger] self.op_map@.contains_key(a) && self.op_map@[a] != a ==> exists|k: int|
                0 <= k < r@.len() && r@[k].site == NameSite::EdgeKind && #[trigger] r@[k].old@ == a,
            forall|k1: int, k2: int| 0 <= k1 < k2 < r@.len() && (#[trigger] r@[k1]).site == (#[trigger] r@[k2]).site
                ==> r@[k1].old@ != r@[k2].old@,
            forall|k1: int, k2: int| 0 <= k1 < k2 < r@.len() && (#[trigger] r@[k1]).site == NameSite::EdgeKind
                ==> (#[trigger] r@[k2]).site == NameSite::EdgeKind,
    {
        let mut out: Vec<SiteRename> = Vec::new();
        push_renames(&self.sort_map, NameSite::VertexKind, &mut out);
        let ghost mid = out@;
        push_renames(&self.op_map, NameSite::EdgeKind, &mut out);
        proof {
            assert forall|a: Seq<char>| #[trigger] self.sort_map@.contains_key(a) && self.sort_map@[a] != a implies exists|k: int|
                0 <= k < out@.len() && out@[k].site == NameSite::VertexKind && #[trigger] out@[k].old@ == a by {
                let k = choose|k: int| 0 <= k < mid.len() && mid[k].site == NameSite::VertexKind && #[trigger] mid[k].old@ == a;
                assert(out@[k] == mid[k]);
            }
            assert forall|k1: int, k2: int| 0 <= k1 < k2 < out@.len() && (#[trigger] out@[k1]).site == (#[trigger] out@[k2]).site
                implies out@[k1].old@ != out@[k2].old@ by {
                if k2 < mid.len() {
                    assert(out@[k1] == mid[k1]);
                    assert(out@[k2] == mid[k2]);
                    assert(mid[k1].old@ != mid[k2].old@);
                } else if k1 < mid.len() {
                    assert(out@[k1] == mid[k1]);
                } else {
                    assert(out@[k1].old@ != out@[k2].old@);
                }
            }
            assert forall|k1: int, k2: int| 0 <= k1 < k2 < out@.len() && (#[trigger] out@[k1]).site == NameSite::EdgeKind
                implies (#[trigger] out@[k2]).site == NameSite::EdgeKind by {
                if k1 < mid.len() {
                    assert(out@[k1] == mid[k1]);
                }
            }
        }
        out
    }
}

/// Append a rename at `site` for each live entry of `m` whose image differs
/// from its key.
fn push_renames(m: &RenameMap, site: NameSite, out: &mut Vec<SiteRename>)
    ensures
        final(out)@.len() >= old(out)@.len(),
        forall|k: int| 0 <= k < old(out)@.len() ==> #[trigger] final(out)@[k] == old(out)@[k],
        forall|k: int| old(out)@.len() <= k < final(out)@.len() ==> {
            let x = #[trigger] final(out)@[k];
            x.site == site && m@.contains_key(x.old@) && m@[x.old@] == x.new@ && x.old@ != x.new@
        },
        forall|a: Seq<char>| #[trigger] m@.contains_key(a) && m@[a] != a ==> exists|k: int|
            old(out)@.len() <= k < final(out)@.len() && final(out)@[k].site == site && #[trigger] final(out)@[k].old@ == a,
        forall|k1: int, k2: int| old(out)@.len() <= k1 < k2 < final(out)@.len() ==> #[trigger] final(out)@[k1].old@ != #[trigger] final(out)@[k2].old@,
{
    let ghost es = m.entries@;
    let ghost start = out@;
    let mut i: usize = 0;
    while i < m.entries.len()
        invariant
            es == m.entries@,
            i <= es.len(),
            out@.len() >= start.len(),
            start == old(out)@,
            forall|k: int| 0 <= k < start.len() ==> #[trigger] out@[k] == start[k],
            forall|k: int| start.len() <= k < out@.len() ==> {
                let x = #[trigger] out@[k];
                x.site == site && m@.contains_key(x.old@) && m@[x.old@] == x.new@ && x.old@ != x.new@
            },
            forall|j: int| 0 <= j < i && entry_live(es, j) && es[j].0@ != es[j].1@ ==> exists|k: int|
                start.len() <= k < out@.len() && out@[k].site == site && #[trigger] out@[k].old@ == es[j].0@,
            forall|k: int| start.len() <= k < out@.len() ==> exists|p: int|
                0 <= p < i && entry_live(es, p) && #[trigger] out@[k].old@ == es[p].0@,
            forall|k1: int, k2: int| start.len() <= k1 < k2 < out@.len() ==> #[trigger] out@[k1].old@ != #[trigger] out@[k2].old@,
        decreases es.len() - i,
    {
        if m.is_live(i) && !(m.entries[i].0 == m.entries[i].1) {
            proof {
                lemma_entries_map_last(es, i as int, es[i as int].0@);
            }
            let r = SiteRename::new(site, m.entries[i].0.as_str(), m.entries[i].1.as_str());
            let ghost before = out@;
            out.push(r);
            proof {
                assert forall|k: int| start.len() <= k < before.len() implies #[trigger] out@[k].old@ != es[i as int].0@ by {
                    let p = choose|p: int| 0 <= p < i && entry_live(es, p) && #[trigger] before[k].old@ == es[p].0@;
                    assert(out@[k] == before[k]);
                    assert(es[i as int].0@ != es[p].0@);
                }
                assert forall|k: int| start.len() <= k < out@.len() implies exists|p: int|
                    0 <= p < i + 1 && entry_live(es, p) && #[trigger] out@[k].old@ == es[p].0@ by {
                    if k == before.len() {
                        assert(out@[k].old@ == es[i as int].0@);
                    } else {
                        assert(out@[k] == before[k]);
                        let p = choose|p: int| 0 <= p < i && entry_live(es, p) && #[trigger] before[k].old@ == es[p].0@;
                        assert(out@[k].old@ == es[p].0@);
                    }
                }
                assert forall|k1: int, k2: int| start.len() <= k1 < k2 < out@.len() implies #[trigger] out@[k1].old@ != #[trigger] out@[k2].old@ by {
                    assert(out@[k1] == before[k1]);
                    if k2 < before.len() {
                        assert(out@[k2] == before[k2]);
                    } else {
                        assert(out@[k2].old@ == es[i as int].0@);
                    }
                }
                assert forall|j: int| 0 <= j < i + 1 && entry_live(es, j) && es[j].0@ != es[j].1@ implies exists|k: int|
                    start.len() <= k < out@.len() && out@[k].site == site && #[trigger] out@[k].old@ == es[j].0@ by {
                    if j == i {
                        assert(out@[before.len() as int].old@ == es[j].0@);
                    } else {
                        let k = choose|k: int| start.len() <= k < before.len() && before[k].site == site && #[trigger] before[k].old@ == es[j].0@;
                        assert(out@[k] == before[k]);
                    }
                }
            }
        }
        i = i + 1;
    }
    proof {
        assert forall|a: Seq<char>| #[trigger] m@.contains_key(a) && m@[a] != a implies exists|k: int|
            start.len() <= k < out@.len() && out@[k].site == site && #[trigger] out@[k].old@ == a by {
            lemma_entries_map_live(es, a);
            let j = choose|j: int| 0 <= j < es.len() && #[trigger] es[j].0@ == a && entry_live(es, j);
            lemma_entries_map_last(es, j, a);
        }
    }
}

/// Compose two name maps entry by entry; `Err` with the first live entry
/// `(a, b)` of `f` whose image `b` is unmapped by `g`.
fn compose_name_maps(f: &RenameMap, g: &RenameMap) -> (r: Result<RenameMap, (String, String)>)
    ensures
        r is Ok <==> composable(f@, g@),
        r matches Ok(c) ==> c@ == compose_maps(f@, g@),
        r matches Err(p) ==> f@.contains_key(p.0@) && f@[p.0@] == p.1@ && !g@.contains_key(p.1@),
{
    let ghost es = f.entries@;
    let mut out = RenameMap::new();
    let mut i: usize = 0;
    while i < f.entries.len()
        invariant
            es == f.entries@,
            i <= es.len(),
            forall|j: int| 0 <= j < i && entry_live(es, j) ==> g@.contains_key(#[trigger] es[j].1@),
            forall|x: Seq<char>| #[trigger] out@.contains_key(x) <==> exists|j: int| 0 <= j < i && entry_live(es, j) && #[trigger] es[j].0@ == x,
            forall|x: Seq<char>| #[trigger] out@.contains_key(x) ==> f@.contains_key(x) && out@[x] == g@[f@[x]],
        decreases es.len() - i,
    {
        if f.is_live(i) {
            let a = &f.entries[i].0;
            let b = &f.entries[i].1;
            proof {
                lemma_entries_map_last(es, i as int, a@);
            }
            match g.get(b) {
                Some(c) => {
                    out.insert(a.clone(), c.clone());
                    proof {
                        assert forall|x: Seq<char>| #[trigger] out@.contains_key(x) <==> exists|j: int| 0 <= j < i + 1 && entry_live(es, j) && #[trigger] es[j].0@ == x by {
                            if x == a@ {
                                assert(0 <= i < i + 1 && entry_live(es, i as int) && es[i as int].0@ == x);
                            } else if exists|j: int| 0 <= j < i + 1 && entry_live(es, j) && #[trigger] es[j].0@ == x {
                                let j = choose|j: int| 0 <= j < i + 1 && entry_live(es, j) && #[trigger] es[j].0@ == x;
                                assert(j != i);
                            }
                        }
                    }
                },
                None => {
                    return Err((a.clone(), b.clone()));
                },
            }
        } else {
            proof {
                assert forall|x: Seq<char>| #[trigger] out@.contains_key(x) <==> exists|j: int| 0 <= j < i + 1 && entry_live(es, j) && #[trigger] es[j].0@ == x by {
                    if exists|j: int| 0 <= j < i + 1 && entry_live(es, j) && #[trigger] es[j].0@ == x {
                        let j = choose|j: int| 0 <= j < i + 1 && entry_live(es, j) && #[trigger] es[j].0@ == x;
                        assert(j != i);
                    }
                }
            }
        }
        i = i + 1;
    }
    proof {
        assert forall|x: Seq<char>| #[trigger] f@.contains_key(x) implies g@.contains_key(f@[x]) && out@.contains_key(x) by {
            lemma_entries_map_live(es, x);
            let j = choose|j: int| 0 <= j < es.len() && #[trigger] es[j].0@ == x && entry_live(es, j);
            lemma_entries_map_last(es, j, x);
        }
        assert(out@ =~= compose_maps(f@, g@));
    }
    Ok(out)
}

// ---------------------------------------------------------------------------
// Checking a morphism
// ---------------------------------------------------------------------------

/// The parameter names of a sort.
pub open spec fn param_names(s: Sort) -> Seq<Seq<char>> {
    Seq::new(s.params@.len(), |i: int| s.params@[i].name@)
}

/// The input names of an operation.
pub open spec fn input_names_of(o: Operation) -> Seq<Seq<char>> {
    Seq::new(o.inputs@.len(), |i: int| o.inputs@[i].0@)
}

/// The first parameter from `j` on whose sort, mapped and renamed to the
/// target's parameter names, differs from the target's.
pub open spec fn params_violation(m: TheoryMorphism, s: Sort, ts: Sort, j: int) -> Option<SGatError>
    decreases (if 0 <= j < s.params@.len() { s.params@.len() - j } else { 0 }) as nat,
{
    if 0 <= j < s.params@.len() {
        let rn = positional_rename(param_names(s), param_names(ts));
        let mapped = subst_sort(apply_maps_spec(s.params@[j].sort@, m.sort_map@, m.op_map@), rn);
        if mapped != ts.params@[j].sort@ {
            Some(SGatError::SortParamMismatch {
                sort: s.name@,
                param_index: j as nat,
                expected: sort_model_text(mapped),
                got: sort_text(ts.params@[j].sort),
            })
        } else {
            params_violation(m, s, ts, j + 1)
        }
    } else {
        None
    }
}

/// The first violation of the morphism at one domain sort: unmapped,
/// target missing, arity or kind differing, or a parameter sort differing.
pub open spec fn sort_violation(m: TheoryMorphism, s: Sort, cod: Theory) -> Option<SGatError> {
    if !m.sort_map@.contains_key(s.name@) {
        Some(SGatError::MissingSortMapping(s.name@))
    } else {
        let tn = m.sort_map@[s.name@];
        match first_named(sort_names(cod.sorts@), tn) {
            None => Some(SGatError::SortNotFound(tn)),
            Some(k) => {
                let ts = cod.sorts@[k];
                if s.params@.len() != ts.params@.len() {
                    Some(SGatError::SortArityMismatch { sort: s.name@, expected: s.params@.len(), got: ts.params@.len() })
                } else if s.kind != ts.kind {
                    Some(SGatError::SortKindMismatch { sort: s.name@, expected: s.kind, got: ts.kind })
                } else {
                    params_violation(m, s, ts, 0)
                }
            },
        }
    }
}

/// The first violation among the domain sorts from `i` on.
pub open spec fn sorts_violation(m: TheoryMorphism, sorts: Seq<Sort>, cod: Theory, i: int) -> Option<SGatError>
    decreases (if 0 <= i < sorts.len() { sorts.len() - i } else { 0 }) as nat,
{
    if 0 <= i < sorts.len() {
        match sort_violation(m, sorts[i], cod) {
            Some(e) => Some(e),
            None => sorts_violation(m, sorts, cod, i + 1),
        }
    } else {
        None
    }
}

/// The first input from `j` on whose sort head is unmapped, or whose sort,
/// mapped and renamed to the target's input names, differs from the
/// target's.
pub open spec fn inputs_violation(m: TheoryMorphism, o: Operation, to: Operation, j: int) -> Option<SGatError>
    decreases (if 0 <= j < o.inputs@.len() { o.inputs@.len() - j } else { 0 }) as nat,
{
    if 0 <= j < o.inputs@.len() {
        let e = o.inputs@[j].1@;
        if !m.sort_map@.contains_key(e.head) {
            Some(SGatError::MissingSortMapping(e.head))
        } else {
            let rn = positional_rename(input_names_of(o), input_names_of(to));
            let mapped = subst_sort(apply_maps_spec(e, m.sort_map@, m.op_map@), rn);
            if mapped != to.inputs@[j].1@ {
                Some(SGatError::OpTypeMismatch {
                    op: o.name@,
                    detail: "input "@ + decimal(j as nat) + ": expected sort "@ + sort_model_text(mapped) + ", got "@
                        + sort_text(to.inputs@[j].1),
                })
            } else {
                inputs_violation(m, o, to, j + 1)
            }
        }
    } else {
        None
    }
}

/// The violation of the output sort, if any.
pub open spec fn output_violation(m: TheoryMorphism, o: Operation, to: Operation) -> Option<SGatError> {
    let e = o.output@;
    if !m.sort_map@.contains_key(e.head) {
        Some(SGatError::MissingSortMapping(e.head))
    } else {
        let rn = positional_rename(input_names_of(o), input_names_of(to));
        let mapped = subst_sort(apply_maps_spec(e, m.sort_map@, m.op_map@), rn);
        if mapped != to.output@ {
            Some(SGatError::OpTypeMismatch {
                op: o.name@,
                detail: "output: expected sort "@ + sort_model_text(mapped) + ", got "@ + sort_text(to.output),
            })
        } else {
            None
        }
    }
}

/// The first violation of the morphism at one domain operation.
pub open spec fn op_violation(m: TheoryMorphism, o: Operation, cod: Theory) -> Option<SGatError> {
    if !m.op_map@.contains_key(o.name@) {
        Some(SGatError::MissingOpMapping(o.name@))
    } else {
        let tn = m.op_map@[o.name@];
        match first_named(op_names(cod.ops@), tn) {
            None => Some(SGatError::OpNotFound(tn)),
            Some(k) => {
                let to = cod.ops@[k];
                if o.inputs@.len() != to.inputs@.len() {
                    Some(SGatError::OpTypeMismatch {
                        op: o.name@,
                        detail: "arity mismatch: domain has "@ + decimal(o.inputs@.len()) + " inputs, codomain has "@
                            + decimal(to.inputs@.len()),
                    })
                } else {
                    match inputs_violation(m, o, to, 0) {
                        Some(e) => Some(e),
                        None => output_violation(m, o, to),
                    }
                }
            },
        }
    }
}

/// The first violation among the domain operations from `i` on.
pub open spec fn ops_violation(m: TheoryMorphism, ops: Seq<Operation>, cod: Theory, i: int) -> Option<SGatError>
    decreases (if 0 <= i < ops.len() { ops.len() - i } else { 0 }) as nat,
{
    if 0 <= i < ops.len() {
        match op_violation(m, ops[i], cod) {
            Some(e) => Some(e),
            None => ops_violation(m, ops, cod, i + 1),
        }
    } else {
        None
    }
}

/// Some equation of the codomain is alpha-equivalent to the mapped pair.
pub open spec fn equation_present(l: STerm, r: STerm, cod: Seq<Equation>) -> bool {
    exists|k: int| 0 <= k < cod.len() && alpha_equiv_equation(#[trigger] cod[k].lhs@, cod[k].rhs@, l, r)
}

/// Some directed equation of the codomain is alpha-equivalent to the
/// mapped pair.
pub open spec fn rule_present(l: STerm, r: STerm, cod: Seq<DirectedEquation>) -> bool {
    exists|k: int| 0 <= k < cod.len() && alpha_equiv_equation(#[trigger] cod[k].lhs@, cod[k].rhs@, l, r)
}

/// The first domain equation from `i` on whose mapped form is not present
/// in the codomain.
pub open spec fn eqs_violation(m: TheoryMorphism, eqs: Seq<Equation>, cod: Seq<Equation>, i: int) -> Option<SGatError>
    decreases (if 0 <= i < eqs.len() { eqs.len() - i } else { 0 }) as nat,
{
    if 0 <= i < eqs.len() {
        if !equation_present(rename_ops_spec(eqs[i].lhs@, m.op_map@), rename_ops_spec(eqs[i].rhs@, m.op_map@), cod) {
            Some(SGatError::EquationNotPreserved { equation: eqs[i].name@, detail: "mapped equation not found in codomain"@ })
        } else {
            eqs_violation(m, eqs, cod, i + 1)
        }
    } else {
        None
    }
}

/// The first domain directed equation from `i` on whose mapped form is not
/// present in the codomain.
pub open spec fn rules_violation(m: TheoryMorphism, des: Seq<DirectedEquation>, cod: Seq<DirectedEquation>, i: int) -> Option<SGatError>
    decreases (if 0 <= i < des.len() { des.len() - i } else { 0 }) as nat,
{
    if 0 <= i < des.len() {
        if !rule_present(rename_ops_spec(des[i].lhs@, m.op_map@), rename_ops_spec(des[i].rhs@, m.op_map@), cod) {
            Some(SGatError::DirectedEquationNotPreserved {
                equation: des[i].name@,
                detail: "mapped directed equation not found in codomain"@,
            })
        } else {
            rules_violation(m, des, cod, i + 1)
        }
    } else {
        None
    }
}

/// The first violation of a morphism: sorts first, then operations, then
/// equations, then directed equations.
pub open spec fn morphism_violation(m: TheoryMorphism, dom: Theory, cod: Theory) -> Option<SGatError> {
    match sorts_violation(m, dom.sorts@, cod, 0) {
        Some(e) => Some(e),
        None => match ops_violation(m, dom.ops@, cod, 0) {
            Some(e) => Some(e),
            None => match eqs_violation(m, dom.eqs@, cod.eqs@, 0) {
                Some(e) => Some(e),
                None => rules_violation(m, dom.directed_eqs@, cod.directed_eqs@, 0),
            },
        },
    }
}

fn check_params(m: &TheoryMorphism, s: &Sort, ts: &Sort) -> (r: Result<(), GatError>)
    requires
        s.params@.len() == ts.params@.len(),
    ensures
        match r {
            Ok(()) => params_violation(*m, *s, *ts, 0) is None,
            Err(e) => params_violation(*m, *s, *ts, 0) == Some(e@),
        },
{
    let mut ln: Vec<String> = Vec::new();
    let mut rn: Vec<String> = Vec::new();
    let mut i: usize = 0;
    while i < s.params.len()
        invariant
            s.params@.len() == ts.params@.len(),
            i <= s.params@.len(),
            ln@.len() == i,
            rn@.len() == i,
            forall|j: int| 0 <= j < i ==> #[trigger] ln@[j]@ == s.params@[j].name@,
            forall|j: int| 0 <= j < i ==> #[trigger] rn@[j]@ == ts.params@[j].name@,
        decreases s.params@.len() - i,
    {
        ln.push(s.params[i].name.clone());
        rn.push(ts.params[i].name.clone());
        i = i + 1;
    }
    let rename = positional_param_rename(&ln, &rn);
    proof {
        assert(Seq::new(ln@.len(), |i: int| ln@[i]@) =~= param_names(*s));
        assert(Seq::new(rn@.len(), |i: int| rn@[i]@) =~= param_names(*ts));
    }
    let mut j: usize = 0;
    while j < s.params.len()
        invariant
            s.params@.len() == ts.params@.len(),
            j <= s.params@.len(),
            rename@ == positional_rename(param_names(*s), param_names(*ts)),
            params_violation(*m, *s, *ts, 0) == params_violation(*m, *s, *ts, j as int),
        decreases s.params@.len() - j,
    {
        let mapped = s.params[j].sort.apply_maps(&m.sort_map, &m.op_map).subst(&rename);
        if !mapped.alpha_eq(&ts.params[j].sort) {
            proof {
                lemma_sort_text_normal(mapped);
            }
            return Err(GatError::SortParamMismatch {
                sort: s.name.clone(),
                param_index: j,
                expected: mapped.to_string(),
                got: ts.params[j].sort.to_string(),
            });
        }
        j = j + 1;
    }
    Ok(())
}

fn check_sort(m: &TheoryMorphism, s: &Sort, cod: &Theory) -> (r: Result<(), GatError>)
    ensures
        match r {
            Ok(()) => sort_violation(*m, *s, *cod) is None,
            Err(e) => sort_violation(*m, *s, *cod) == Some(e@),
        },
{
    let target_name = match m.sort_map.get(&s.name) {
        Some(t) => t,
        None => {
            return Err(GatError::MissingSortMapping(s.name.clone()));
        },
    };
    let target_sort = match cod.find_sort(target_name.as_str()) {
        Some(t) => t,
        None => {
            return Err(GatError::SortNotFound(target_name.clone()));
        },
    };
    if s.arity() != target_sort.arity() {
        return Err(GatError::SortArityMismatch { sort: s.name.clone(), expected: s.arity(), got: target_sort.arity() });
    }
    if s.kind != target_sort.kind {
        return Err(GatError::SortKindMismatch { sort: s.name.clone(), expected: s.kind, got: target_sort.kind });
    }
    check_params(m, s, target_sort)
}

fn check_inputs(m: &TheoryMorphism, o: &Operation, to: &Operation) -> (r: Result<(), GatError>)
    requires
        o.inputs@.len() == to.inputs@.len(),
    ensures
        match r {
            Ok(()) => inputs_violation(*m, *o, *to, 0) is None && output_violation(*m, *o, *to) is None,
            Err(e) => (match inputs_violation(*m, *o, *to, 0) {
                Some(x) => Some(x),
                None => output_violation(*m, *o, *to),
            }) == Some(e@),
        },
{
    let mut ln: Vec<String> = Vec::new();
    let mut rn: Vec<String> = Vec::new();
    let mut i: usize = 0;
    while i < o.inputs.len()
        invariant
            o.inputs@.len() == to.inputs@.len(),
            i <= o.inputs@.len(),
            ln@.len() == i,
            rn@.len() == i,
            forall|j: int| 0 <= j < i ==> #[trigger] ln@[j]@ == o.inputs@[j].0@,
            forall|j: int| 0 <= j < i ==> #[trigger] rn@[j]@ == to.inputs@[j].0@,
        decreases o.inputs@.len() - i,
    {
        ln.push(o.inputs[i].0.clone());
        rn.push(to.inputs[i].0.clone());
        i = i + 1;
    }
    let rename = positional_param_rename(&ln, &rn);
    proof {
        assert(Seq::new(ln@.len(), |i: int| ln@[i]@) =~= input_names_of(*o));
        assert(Seq::new(rn@.len(), |i: int| rn@[i]@) =~= input_names_of(*to));
        reveal_strlit("input ");
        reveal_strlit(": expected sort ");
        reveal_strlit(", got ");
        reveal_strlit("output: expected sort ");
    }
    let mut j: usize = 0;
    while j < o.inputs.len()
        invariant
            o.inputs@.len() == to.inputs@.len(),
            j <= o.inputs@.len(),
            rename@ == positional_rename(input_names_of(*o), input_names_of(*to)),
            inputs_violation(*m, *o, *to, 0) == inputs_violation(*m, *o, *to, j as int),
        decreases o.inputs@.len() - j,
    {
        let e = &o.inputs[j].1;
        if !m.sort_map.contains_key(e.head()) {
            return Err(GatError::MissingSortMapping(e.head().clone()));
        }
        let mapped = e.apply_maps(&m.sort_map, &m.op_map).subst(&rename);
        if !mapped.alpha_eq(&to.inputs[j].1) {
            proof {
                lemma_sort_text_normal(mapped);
            }
            let mut detail = String::new();
            detail.append("input ");
            detail.append(decimal_string(j).as_str());
            detail.append(": expected sort ");
            detail.append(mapped.to_string().as_str());
            detail.append(", got ");
            detail.append(to.inputs[j].1.to_string().as_str());
            proof {
                assert(detail@ =~= "input "@ + decimal(j as nat) + ": expected sort "@ + sort_model_text(mapped@) + ", got "@
                    + sort_text(to.inputs@[j as int].1));
            }
            return Err(GatError::OpTypeMismatch { op: o.name.clone(), detail });
        }
        j = j + 1;
    }
    if !m.sort_map.contains_key(o.output.head()) {
        return Err(GatError::MissingSortMapping(o.output.head().clone()));
    }
    let mapped = o.output.apply_maps(&m.sort_map, &m.op_map).subst(&rename);
    if !mapped.alpha_eq(&to.output) {
        proof {
            lemma_sort_text_normal(mapped);
        }
        let mut detail = String::new();
        detail.append("output: expected sort ");
        detail.append(mapped.to_string().as_str());
        detail.append(", got ");
        detail.append(to.output.to_string().as_str());
        proof {
            assert(detail@ =~= "output: expected sort "@ + sort_model_text(mapped@) + ", got "@ + sort_text(to.output));
        }
        return Err(GatError::OpTypeMismatch { op: o.name.clone(), detail });
    }
    Ok(())
}

fn check_op(m: &TheoryMorphism, o: &Operation, cod: &Theory) -> (r: Result<(), GatError>)
    ensures
        match r {
            Ok(()) => op_violation(*m, *o, *cod) is None,
            Err(e) => op_violation(*m, *o, *cod) == Some(e@),
        },
{
    let target_name = match m.op_map.get(&o.name) {
        Some(t) => t,
        None => {
            return Err(GatError::MissingOpMapping(o.name.clone()));
        },
    };
    let target_op = match cod.find_op(target_name.as_str()) {
        Some(t) => t,
        None => {
            return Err(GatError::OpNotFound(target_name.clone()));
        },
    };
    if o.inputs.len() != target_op.inputs.len() {
        proof {
            reveal_strlit("arity mismatch: domain has ");
            reveal_strlit(" inputs, codomain has ");
        }
        let mut detail = String::new();
        detail.append("arity mismatch: domain has ");
        detail.append(decimal_string(o.inputs.len()).as_str());
        detail.append(" inputs, codomain has ");
        detail.append(decimal_string(target_op.inputs.len()).as_str());
        proof {
            assert(detail@ =~= "arity mismatch: domain has "@ + decimal(o.inputs@.len()) + " inputs, codomain has "@
                + decimal(target_op.inputs@.len()));
        }
        return Err(GatError::OpTypeMismatch { op: o.name.clone(), detail });
    }
    check_inputs(m, o, target_op)
}

fn equation_found(l: &Term, r: &Term, cod: &Vec<Equation>) -> (b: bool)
    ensures
        b == equation_present(l@, r@, cod@),
{
    let mut k: usize = 0;
    while k < cod.len()
        invariant
            k <= cod@.len(),
            forall|j: int| 0 <= j < k ==> !alpha_equiv_equation(#[trigger] cod@[j].lhs@, cod@[j].rhs@, l@, r@),
        decreases cod@.len() - k,
    {
        if alpha_equivalent_equation(&cod[k].lhs, &cod[k].rhs, l, r) {
            return true;
        }
        k = k + 1;
    }
    false
}

fn rule_found(l: &Term, r: &Term, cod: &Vec<DirectedEquation>) -> (b: bool)
    ensures
        b == rule_present(l@, r@, cod@),
{
    let mut k: usize = 0;
    while k < cod.len()
        invariant
            k <= cod@.len(),
            forall|j: int| 0 <= j < k ==> !alpha_equiv_equation(#[trigger] cod@[j].lhs@, cod@[j].rhs@, l@, r@),
        decreases cod@.len() - k,
    {
        if alpha_equivalent_equation(&cod[k].lhs, &cod[k].rhs, l, r) {
            return true;
        }
        k = k + 1;
    }
    false
}

/// Check that a theory morphism is valid: every domain sort and
/// operation is mapped to a declared codomain sort or operation with the
/// same arity, kind and (mapped, positionally renamed) signature, and every
/// domain equation and directed equation maps to one that the codomain
/// lists up to alpha-equivalence. The first violation is returned.
pub fn check_morphism(m: &TheoryMorphism, domain: &Theory, codomain: &Theory) -> (r: Result<(), GatError>)
    ensures
        match r {
            Ok(()) => morphism_violation(*m, *domain, *codomain) is None,
            Err(e) => morphism_violation(*m, *domain, *codomain) == Some(e@),
        },
{
    let mut i: usize = 0;
    while i < domain.sorts.len()
        invariant
            i <= domain.sorts@.len(),
            sorts_violation(*m, domain.sorts@, *codomain, 0) == sorts_violation(*m, domain.sorts@, *codomain, i as int),
        decreases domain.sorts@.len() - i,
    {
        match check_sort(m, &domain.sorts[i], codomain) {
            Ok(()) => {},
            Err(e) => {
                return Err(e);
            },
        }
        i = i + 1;
    }
    let mut i: usize = 0;
    while i < domain.ops.len()
        invariant
            i <= domain.ops@.len(),
            sorts_violation(*m, domain.sorts@, *codomain, 0) is None,
            ops_violation(*m, domain.ops@, *codomain, 0) == ops_violation(*m, domain.ops@, *codomain, i as int),
        decreases domain.ops@.len() - i,
    {
        match check_op(m, &domain.ops[i], codomain) {
            Ok(()) => {},
            Err(e) => {
                return Err(e);
            },
        }
        i = i + 1;
    }
    proof {
        reveal_strlit("mapped equation not found in codomain");
        reveal_strlit("mapped directed equation not found in codomain");
    }
    let mut i: usize = 0;
    while i < domain.eqs.len()
        invariant
            i <= domain.eqs@.len(),
            sorts_violation(*m, domain.sorts@, *codomain, 0) is None,
            ops_violation(*m, domain.ops@, *codomain, 0) is None,
            eqs_violation(*m, domain.eqs@, codomain.eqs@, 0) == eqs_violation(*m, domain.eqs@, codomain.eqs@, i as int),
        decreases domain.eqs@.len() - i,
    {
        let l = m.apply_to_term(&domain.eqs[i].lhs);
        let rr = m.apply_to_term(&domain.eqs[i].rhs);
        if !equation_found(&l, &rr, &codomain.eqs) {
            let mut detail = String::new();
            detail.append("mapped equation not found in codomain");
            return Err(GatError::EquationNotPreserved { equation: domain.eqs[i].name.clone(), detail });
        }
        i = i + 1;
    }
    let mut i: usize = 0;
    while i < domain.directed_eqs.len()
        invariant
            i <= domain.directed_eqs@.len(),
            sorts_violation(*m, domain.sorts@, *codomain, 0) is None,
            ops_violation(*m, domain.ops@, *codomain, 0) is None,
            eqs_violation(*m, domain.eqs@, codomain.eqs@, 0) is None,
            rules_violation(*m, domain.directed_eqs@, codomain.directed_eqs@, 0) == rules_violation(
                *m,
                domain.directed_eqs@,
                codomain.directed_eqs@,
                i as int,
            ),
        decreases domain.directed_eqs@.len() - i,
    {
        let l = m.apply_to_term(&domain.directed_eqs[i].lhs);
        let rr = m.apply_to_term(&domain.directed_eqs[i].rhs);
        if !rule_found(&l, &rr, &codomain.directed_eqs) {
            let mut detail = String::new();
            detail.append("mapped directed equation not found in codomain");
            return Err(GatError::DirectedEquationNotPreserved { equation: domain.directed_eqs[i].name.clone(), detail });
        }
        i = i + 1;
    }
    Ok(())
}

// ---------------------------------------------------------------------------
// Laws
// ---------------------------------------------------------------------------

/// Composition of name maps is associative, and a composite of
/// composable maps is composable with what follows.
pub proof fn lemma_compose_maps_assoc(
    f: Map<Seq<char>, Seq<char>>,
    g: Map<Seq<char>, Seq<char>>,
    h: Map<Seq<char>, Seq<char>>,
)
    requires
        composable(f, g),
        composable(g, h),
    ensures
        composable(compose_maps(f, g), h),
        composable(f, compose_maps(g, h)),
        compose_maps(compose_maps(f, g), h) == compose_maps(f, compose_maps(g, h)),
{
    assert forall|a: Seq<char>| #[trigger] compose_maps(f, g).contains_key(a) implies h.contains_key(compose_maps(f, g)[a]) by {
        assert(g.contains_key(f[a]));
    }
    assert forall|a: Seq<char>| #[trigger] f.contains_key(a) implies compose_maps(g, h).contains_key(f[a]) by {
        assert(g.contains_key(f[a]));
    }
    assert(compose_maps(compose_maps(f, g), h) =~= compose_maps(f, compose_maps(g, h)));
}

/// The identity map on a set of names is a unit for composition: on the
/// left of a map defined exactly on those names, and on the right of a
/// map whose images are among them.
pub proof fn lemma_compose_maps_identity(names: Seq<Seq<char>>, f: Map<Seq<char>, Seq<char>>, g: Map<Seq<char>, Seq<char>>)
    requires
        forall|a: Seq<char>| #[trigger] g.contains_key(a) <==> names.contains(a),
        forall|a: Seq<char>| #[trigger] f.contains_key(a) ==> names.contains(f[a]),
    ensures
        composable(identity_map(names), g),
        compose_maps(identity_map(names), g) == g,
        composable(f, identity_map(names)),
        compose_maps(f, identity_map(names)) == f,
{
    assert(compose_maps(identity_map(names), g) =~= g);
    assert(compose_maps(f, identity_map(names)) =~= f);
}

/// No name occurs twice.
pub open spec fn distinct_names(ns: Seq<Seq<char>>) -> bool {
    forall|i: int, j: int| 0 <= i < ns.len() && 0 <= j < ns.len() && i != j ==> ns[i] != ns[j]
}

/// Sort and operation names are distinct, and every sort named in an
/// operation signature is declared.
pub open spec fn theory_well_formed(t: Theory) -> bool {
    &&& distinct_names(sort_names(t.sorts@))
    &&& distinct_names(op_names(t.ops@))
    &&& forall|i: int, j: int| 0 <= i < t.ops@.len() && 0 <= j < t.ops@[i].inputs@.len() ==> sort_names(t.sorts@).contains(
        #[trigger] t.ops@[i].inputs@[j].1@.head,
    )
    &&& forall|i: int| 0 <= i < t.ops@.len() ==> sort_names(t.sorts@).contains(#[trigger] t.ops@[i].output@.head)
}

proof fn lemma_first_named_distinct(ns: Seq<Seq<char>>, i: int)
    requires
        distinct_names(ns),
        0 <= i < ns.len(),
    ensures
        first_named(ns, ns[i]) == Some(i),
{
    let c = choose|c: int| 0 <= c < ns.len() && ns[c] == ns[i] && forall|j: int| 0 <= j < c ==> ns[j] != ns[i];
    crate::theory::lemma_first_named(ns, ns[i]);
    assert(c == i);
}

proof fn lemma_identity_maps_sort(e: SSortExpr, sn: Seq<Seq<char>>, on: Seq<Seq<char>>)
    ensures
        subst_sort(apply_maps_spec(e, identity_map(sn), identity_map(on)), Map::empty()) == e,
{
    let a = apply_maps_spec(e, identity_map(sn), identity_map(on));
    assert forall|i: int| 0 <= i < e.args.len() implies #[trigger] a.args[i] == e.args[i] by {
        crate::eq::lemma_rename_ops_fixed(e.args[i], identity_map(on));
    }
    assert forall|i: int| 0 <= i < e.args.len() implies subst(#[trigger] a.args[i], Map::empty()) == e.args[i] by {
        crate::eq::lemma_subst_empty(e.args[i]);
    }
    assert(subst_sort(a, Map::empty()).args =~= e.args);
}

proof fn lemma_identity_params(m: TheoryMorphism, s: Sort, sn: Seq<Seq<char>>, on: Seq<Seq<char>>, j: int)
    requires
        m.sort_map@ == identity_map(sn),
        m.op_map@ == identity_map(on),
        0 <= j,
    ensures
        params_violation(m, s, s, j) is None,
    decreases (if 0 <= j < s.params@.len() { s.params@.len() - j } else { 0 }) as nat,
{
    if j < s.params@.len() {
        crate::sort::lemma_positional_rename_identity(param_names(s));
        lemma_identity_maps_sort(s.params@[j].sort@, sn, on);
        lemma_identity_params(m, s, sn, on, j + 1);
    }
}

proof fn lemma_identity_sorts(m: TheoryMorphism, t: Theory, i: int)
    requires
        theory_well_formed(t),
        m.sort_map@ == identity_map(sort_names(t.sorts@)),
        m.op_map@ == identity_map(op_names(t.ops@)),
        0 <= i,
    ensures
        sorts_violation(m, t.sorts@, t, i) is None,
    decreases (if 0 <= i < t.sorts@.len() { t.sorts@.len() - i } else { 0 }) as nat,
{
    if i < t.sorts@.len() {
        let sn = sort_names(t.sorts@);
        assert(sn[i] == t.sorts@[i].name@);
        assert(sn.contains(sn[i]));
        lemma_first_named_distinct(sn, i);
        lemma_identity_params(m, t.sorts@[i], sn, op_names(t.ops@), 0);
        lemma_identity_sorts(m, t, i + 1);
    }
}

proof fn lemma_identity_inputs(m: TheoryMorphism, t: Theory, k: int, j: int)
    requires
        theory_well_formed(t),
        m.sort_map@ == identity_map(sort_names(t.sorts@)),
        m.op_map@ == identity_map(op_names(t.ops@)),
        0 <= k < t.ops@.len(),
        0 <= j,
    ensures
        inputs_violation(m, t.ops@[k], t.ops@[k], j) is None,
    decreases (if 0 <= j < t.ops@[k].inputs@.len() { t.ops@[k].inputs@.len() - j } else { 0 }) as nat,
{
    let o = t.ops@[k];
    if j < o.inputs@.len() {
        assert(sort_names(t.sorts@).contains(t.ops@[k].inputs@[j].1@.head));
        crate::sort::lemma_positional_rename_identity(input_names_of(o));
        lemma_identity_maps_sort(o.inputs@[j].1@, sort_names(t.sorts@), op_names(t.ops@));
        lemma_identity_inputs(m, t, k, j + 1);
    }
}

proof fn lemma_identity_ops(m: TheoryMorphism, t: Theory, i: int)
    requires
        theory_well_formed(t),
        m.sort_map@ == identity_map(sort_names(t.sorts@)),
        m.op_map@ == identity_map(op_names(t.ops@)),
        0 <= i,
    ensures
        ops_violation(m, t.ops@, t, i) is None,
    decreases (if 0 <= i < t.ops@.len() { t.ops@.len() - i } else { 0 }) as nat,
{
    if i < t.ops@.len() {
        let on = op_names(t.ops@);
        let o = t.ops@[i];
        assert(on[i] == o.name@);
        assert(on.contains(on[i]));
        lemma_first_named_distinct(on, i);
        lemma_identity_inputs(m, t, i, 0);
        assert(sort_names(t.sorts@).contains(t.ops@[i].output@.head));
        crate::sort::lemma_positional_rename_identity(input_names_of(o));
        lemma_identity_maps_sort(o.output@, sort_names(t.sorts@), on);
        lemma_identity_ops(m, t, i + 1);
    }
}

proof fn lemma_identity_eqs(m: TheoryMorphism, eqs: Seq<Equation>, on: Seq<Seq<char>>, i: int)
    requires
        m.op_map@ == identity_map(on),
        0 <= i,
    ensures
        eqs_violation(m, eqs, eqs, i) is None,
    decreases (if 0 <= i < eqs.len() { eqs.len() - i } else { 0 }) as nat,
{
    if i < eqs.len() {
        crate::eq::lemma_rename_ops_fixed(eqs[i].lhs@, m.op_map@);
        crate::eq::lemma_rename_ops_fixed(eqs[i].rhs@, m.op_map@);
        crate::alpha::lemma_alpha_equiv_reflexive(eqs[i].lhs@, eqs[i].rhs@);
        assert(alpha_equiv_equation(eqs[i].lhs@, eqs[i].rhs@, eqs[i].lhs@, eqs[i].rhs@));
        lemma_identity_eqs(m, eqs, on, i + 1);
    }
}

proof fn lemma_identity_rules(m: TheoryMorphism, des: Seq<DirectedEquation>, on: Seq<Seq<char>>, i: int)
    requires
        m.op_map@ == identity_map(on),
        0 <= i,
    ensures
        rules_violation(m, des, des, i) is None,
    decreases (if 0 <= i < des.len() { des.len() - i } else { 0 }) as nat,
{
    if i < des.len() {
        crate::eq::lemma_rename_ops_fixed(des[i].lhs@, m.op_map@);
        crate::eq::lemma_rename_ops_fixed(des[i].rhs@, m.op_map@);
        crate::alpha::lemma_alpha_equiv_reflexive(des[i].lhs@, des[i].rhs@);
        assert(alpha_equiv_equation(des[i].lhs@, des[i].rhs@, des[i].lhs@, des[i].rhs@));
        lemma_identity_rules(m, des, on, i + 1);
    }
}

/// The identity morphism of a well-formed theory passes the morphism
/// check from the theory to itself.
pub proof fn lemma_identity_morphism_valid(m: TheoryMorphism, t: Theory)
    requires
        theory_well_formed(t),
        m.sort_map@ == identity_map(sort_names(t.sorts@)),
        m.op_map@ == identity_map(op_names(t.ops@)),
    ensures
        morphism_violation(m, t, t) is None,
{
    lemma_identity_sorts(m, t, 0);
    lemma_identity_ops(m, t, 0);
    lemma_identity_eqs(m, t.eqs@, op_names(t.ops@), 0);
    lemma_identity_rules(m, t.directed_eqs@, op_names(t.ops@), 0);
}

/// With no violation among the domain sorts from `i` on, each of those
/// sorts is mapped to the name of a codomain sort.
proof fn lemma_sorts_clean_mapped(m: TheoryMorphism, sorts: Seq<Sort>, cod: Theory, i: int, k: int)
    requires
        0 <= i <= k < sorts.len(),
        sorts_violation(m, sorts, cod, i) is None,
    ensures
        m.sort_map@.contains_key(sorts[k].name@),
        sort_names(cod.sorts@).contains(m.sort_map@[sorts[k].name@]),
    decreases k - i,
{
    if i < k {
        lemma_sorts_clean_mapped(m, sorts, cod, i + 1, k);
    } else {
        crate::theory::lemma_first_named(sort_names(cod.sorts@), m.sort_map@[sorts[k].name@]);
    }
}

/// With no violation among the domain operations from `i` on, each of
/// those operations is mapped to the name of a codomain operation.
proof fn lemma_ops_clean_mapped(m: TheoryMorphism, ops: Seq<Operation>, cod: Theory, i: int, k: int)
    requires
        0 <= i <= k < ops.len(),
        ops_violation(m, ops, cod, i) is None,
    ensures
        m.op_map@.contains_key(ops[k].name@),
        op_names(cod.ops@).contains(m.op_map@[ops[k].name@]),
    decreases k - i,
{
    if i < k {
        lemma_ops_clean_mapped(m, ops, cod, i + 1, k);
    } else {
        crate::theory::lemma_first_named(op_names(cod.ops@), m.op_map@[ops[k].name@]);
    }
}

/// A morphism that passes the check sends every domain sort to the name of
/// a sort of the codomain, and every domain operation to the name of an
/// operation of the codomain.
pub proof fn lemma_valid_morphism_targets_exist(m: TheoryMorphism, dom: Theory, cod: Theory)
    requires
        morphism_violation(m, dom, cod) is None,
    ensures
        forall|k: int|
            0 <= k < dom.sorts@.len() ==> m.sort_map@.contains_key(#[trigger] dom.sorts@[k].name@)
                && sort_names(cod.sorts@).contains(m.sort_map@[dom.sorts@[k].name@]),
        forall|k: int|
            0 <= k < dom.ops@.len() ==> m.op_map@.contains_key(#[trigger] dom.ops@[k].name@)
                && op_names(cod.ops@).contains(m.op_map@[dom.ops@[k].name@]),
{
    assert forall|k: int| 0 <= k < dom.sorts@.len() implies m.sort_map@.contains_key(#[trigger] dom.sorts@[k].name@)
        && sort_names(cod.sorts@).contains(m.sort_map@[dom.sorts@[k].name@]) by {
        lemma_sorts_clean_mapped(m, dom.sorts@, cod, 0, k);
    }
    assert forall|k: int| 0 <= k < dom.ops@.len() implies m.op_map@.contains_key(#[trigger] dom.ops@[k].name@)
        && op_names(cod.ops@).contains(m.op_map@[dom.ops@[k].name@]) by {
        lemma_ops_clean_mapped(m, dom.ops@, cod, 0, k);
    }
}

} // verus!
