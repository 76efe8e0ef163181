//! Pullbacks of theories over a common codomain.
use vstd::prelude::*;
use vstd::string::*;

use crate::alpha::{alpha_equiv_equation, alpha_equivalent_equation};
use crate::eq::{DirectedEquation, Equation, SDirectedEquation, SEquation, rename_ops_spec};
use crate::error::{GatError, SGatError};
use crate::maps::{RenameMap, entries_map, entry_live};
use crate::morphism::TheoryMorphism;
use crate::op::{Implicit, Operation, SOperation};
use crate::sort::{SSort, SSortExpr, Sort, SortExpr, SortKind, SortParam};
use crate::theory::{STheory, Theory, first_named, op_names, sort_names};

verus! {

/// The names whose live entries in `es` map to `cod`, from position `i`
/// on, in entry order.
pub open spec fn preimages(es: Seq<(String, String)>, cod: Seq<char>, i: int) -> Seq<Seq<char>>
    decreases (if 0 <= i < es.len() { es.len() - i } else { 0 }) as nat,
{
    if 0 <= i < es.len() {
        (if entry_live(es, i) && es[i].1@ == cod {
            seq![es[i].0@]
        } else {
            Seq::empty()
        }) + preimages(es, cod, i + 1)
    } else {
        Seq::empty()
    }
}

/// The names a renaming sends to `cod`.
fn preimages_exec(m: &RenameMap, cod: &String) -> (r: Vec<String>)
    ensures
        crate::term::names_view(r@) == preimages(m.entries@, cod@, 0),
{
    let mut out: Vec<String> = Vec::new();
    let mut i: usize = 0;
    proof {
        assert(crate::term::names_view(out@) =~= Seq::<Seq<char>>::empty());
    }
    while i < m.entries.len()
        invariant
            i <= m.entries@.len(),
            crate::term::names_view(out@) + preimages(m.entries@, cod@, i as int) == preimages(m.entries@, cod@, 0),
        decreases m.entries@.len() - i,
    {
        let ghost before = crate::term::names_view(out@);
        let ghost rest = preimages(m.entries@, cod@, i + 1);
        if m.is_live(i) && m.entries[i].1 == *cod {
            out.push(m.entries[i].0.clone());
            proof {
                assert(crate::term::names_view(out@) =~= before + seq![m.entries@[i as int].0@]);
                assert(before + (seq![m.entries@[i as int].0@] + rest) =~= crate::term::names_view(out@) + rest);
            }
        } else {
            proof {
                assert(before + (Seq::<Seq<char>>::empty() + rest) =~= before + rest);
            }
        }
        i = i + 1;
    }
    proof {
        assert(crate::term::names_view(out@) + Seq::<Seq<char>>::empty() =~= crate::term::names_view(out@));
    }
    out
}

/// A name in the pullback: the common name when both sides agree, else
/// the two joined by `=`.
pub open spec fn paired_name(a: Seq<char>, b: Seq<char>) -> Seq<char> {
    if a == b {
        a
    } else {
        a + "="@ + b
    }
}

fn paired_name_exec(a: &String, b: &String) -> (r: String)
    ensures
        r@ == paired_name(a@, b@),
{
    if *a == *b {
        a.clone()
    } else {
        proof {
            reveal_strlit("=");
        }
        let mut s = a.clone();
        s.append("=");
        s.append(b.as_str());
        s
    }
}

/// A triple of names: in the first theory, in the second, in the
/// pullback.
pub type NameTriple = (Seq<char>, Seq<char>, Seq<char>);

/// The views of a list of name triples.
pub open spec fn triples_view(v: Seq<(String, String, String)>) -> Seq<NameTriple> {
    Seq::new(v.len(), |i: int| (v[i].0@, v[i].1@, v[i].2@))
}

/// The pairs of the sort `s1` with the candidate names from position `k`
/// on: each candidate declared in `t2` (first declaration) with the same
/// arity.
pub open spec fn sort_pairs_for(s1: Sort, t2: Theory, cands: Seq<Seq<char>>, k: int) -> Seq<NameTriple>
    decreases (if 0 <= k < cands.len() { cands.len() - k } else { 0 }) as nat,
{
    if 0 <= k < cands.len() {
        let c = cands[k];
        (match first_named(sort_names(t2.sorts@), c) {
            Some(j) => if s1.params@.len() == t2.sorts@[j].params@.len() {
                seq![(s1.name@, c, paired_name(s1.name@, c))]
            } else {
                Seq::empty()
            },
            None => Seq::empty(),
        }) + sort_pairs_for(s1, t2, cands, k + 1)
    } else {
        Seq::empty()
    }
}

/// The sort triples of the pullback from the `i`-th sort of `t1` on: each
/// sort of `t1` that `m1` maps is paired with every sort of `t2` that
/// `m2` sends to the same image.
pub open spec fn sort_triples_from(t1: Theory, t2: Theory, m1: TheoryMorphism, m2: TheoryMorphism, i: int) -> Seq<NameTriple>
    decreases (if 0 <= i < t1.sorts@.len() { t1.sorts@.len() - i } else { 0 }) as nat,
{
    if 0 <= i < t1.sorts@.len() {
        let s1 = t1.sorts@[i];
        (if m1.sort_map@.contains_key(s1.name@) {
            sort_pairs_for(s1, t2, preimages(m2.sort_map.entries@, m1.sort_map@[s1.name@], 0), 0)
        } else {
            Seq::empty()
        }) + sort_triples_from(t1, t2, m1, m2, i + 1)
    } else {
        Seq::empty()
    }
}

fn sort_triples(t1: &Theory, t2: &Theory, m1: &TheoryMorphism, m2: &TheoryMorphism) -> (r: Vec<(String, String, String)>)
    ensures
        triples_view(r@) == sort_triples_from(*t1, *t2, *m1, *m2, 0),
{
    let mut out: Vec<(String, String, String)> = Vec::new();
    let ghost total = sort_triples_from(*t1, *t2, *m1, *m2, 0);
    proof {
        assert(triples_view(out@) =~= Seq::<NameTriple>::empty());
    }
    let mut i: usize = 0;
    while i < t1.sorts.len()
        invariant
            total == sort_triples_from(*t1, *t2, *m1, *m2, 0),
            i <= t1.sorts@.len(),
            triples_view(out@) + sort_triples_from(*t1, *t2, *m1, *m2, i as int) == total,
        decreases t1.sorts@.len() - i,
    {
        let s1 = &t1.sorts[i];
        let ghost before = triples_view(out@);
        let ghost rest = sort_triples_from(*t1, *t2, *m1, *m2, i + 1);
        match m1.sort_map.get(&s1.name) {
            Some(cod) => {
                let cands = preimages_exec(&m2.sort_map, cod);
                let ghost cv = crate::term::names_view(cands@);
                let ghost mid = before;
                let mut k: usize = 0;
                while k < cands.len()
                    invariant
                        cv == crate::term::names_view(cands@),
                        k <= cands@.len(),
                        triples_view(out@) + sort_pairs_for(*s1, *t2, cv, k as int) == mid + sort_pairs_for(*s1, *t2, cv, 0),
                    decreases cands@.len() - k,
                {
                    let c = &cands[k];
                    let ghost b2 = triples_view(out@);
                    let ghost r2 = sort_pairs_for(*s1, *t2, cv, k + 1);
                    proof {
                        assert(cv[k as int] == c@);
                    }
                    match t2.find_sort(c.as_str()) {
                        Some(s2) => {
                            if s1.arity() == s2.arity() {
                                let pb = paired_name_exec(&s1.name, c);
                                out.push((s1.name.clone(), c.clone(), pb));
                                proof {
                                    assert(triples_view(out@) =~= b2 + seq![(s1.name@, c@, paired_name(s1.name@, c@))]);
                                    assert(b2 + (seq![(s1.name@, c@, paired_name(s1.name@, c@))] + r2) =~= triples_view(out@) + r2);
                                }
                            } else {
                                proof {
                                    assert(b2 + (Seq::<NameTriple>::empty() + r2) =~= b2 + r2);
                                }
                            }
                        },
                        None => {
                            proof {
                                assert(b2 + (Seq::<NameTriple>::empty() + r2) =~= b2 + r2);
                            }
                        },
                    }
                    k = k + 1;
                }
                proof {
                    assert(triples_view(out@) + Seq::<NameTriple>::empty() =~= triples_view(out@));
                    let here = sort_pairs_for(*s1, *t2, cv, 0);
                    assert(before + (here + rest) =~= (before + here) + rest);
                }
            },
            None => {
                proof {
                    assert(before + (Seq::<NameTriple>::empty() + rest) =~= before + rest);
                }
            },
        }
        i = i + 1;
    }
    proof {
        assert(triples_view(out@) + Seq::<NameTriple>::empty() =~= triples_view(out@));
    }
    out
}


/// The bare sort expression naming `n`.
pub open spec fn bare(n: Seq<char>) -> SSortExpr {
    SSortExpr { head: n, args: Seq::empty() }
}

/// The pullback name of the first triple whose first-theory name is `n`,
/// from position `k` on.
pub open spec fn first_triple_for(ts: Seq<NameTriple>, n: Seq<char>, k: int) -> Option<Seq<char>>
    decreases (if 0 <= k < ts.len() { ts.len() - k } else { 0 }) as nat,
{
    if 0 <= k < ts.len() {
        if ts[k].0 == n {
            Some(ts[k].2)
        } else {
            first_triple_for(ts, n, k + 1)
        }
    } else {
        None
    }
}

/// The pullback parameters from position `k` on: each parameter whose
/// sort is a bare sort name paired in `ts` keeps its name, over the
/// paired sort; the others are dropped.
pub open spec fn pb_params(ts: Seq<NameTriple>, ps: Seq<(Seq<char>, SSortExpr)>, k: int) -> Seq<(Seq<char>, SSortExpr)>
    decreases (if 0 <= k < ps.len() { ps.len() - k } else { 0 }) as nat,
{
    if 0 <= k < ps.len() {
        (if ps[k].1.args.len() == 0 {
            match first_triple_for(ts, ps[k].1.head, 0) {
                Some(pbn) => seq![(ps[k].0, bare(pbn))],
                None => Seq::empty(),
            }
        } else {
            Seq::empty()
        }) + pb_params(ts, ps, k + 1)
    } else {
        Seq::empty()
    }
}

/// The pullback sorts from the `k`-th triple on: an open structural sort
/// named by the triple, with the paired parameters of the first sort of
/// `t1` with the triple's first name.
pub open spec fn pb_sorts_from(t1: Theory, ts: Seq<NameTriple>, k: int) -> Seq<SSort>
    decreases (if 0 <= k < ts.len() { ts.len() - k } else { 0 }) as nat,
{
    if 0 <= k < ts.len() {
        (match first_named(sort_names(t1.sorts@), ts[k].0) {
            Some(i) => seq![
                SSort {
                    name: ts[k].2,
                    params: if t1.sorts@[i].params@.len() == 0 {
                        Seq::empty()
                    } else {
                        pb_params(ts, t1.sorts@[i]@.params, 0)
                    },
                    kind: SortKind::Structure,
                    closure: None,
                },
            ],
            None => Seq::empty(),
        }) + pb_sorts_from(t1, ts, k + 1)
    } else {
        Seq::empty()
    }
}

fn first_triple_exec(ts: &Vec<(String, String, String)>, n: &String) -> (r: Option<String>)
    ensures
        match r {
            Some(x) => first_triple_for(triples_view(ts@), n@, 0) == Some(x@),
            None => first_triple_for(triples_view(ts@), n@, 0) is None,
        },
{
    let ghost tv = triples_view(ts@);
    let mut k: usize = 0;
    while k < ts.len()
        invariant
            tv == triples_view(ts@),
            k <= ts@.len(),
            first_triple_for(tv, n@, 0) == first_triple_for(tv, n@, k as int),
        decreases ts@.len() - k,
    {
        if ts[k].0 == *n {
            return Some(ts[k].2.clone());
        }
        k = k + 1;
    }
    None
}

fn pb_params_exec(ts: &Vec<(String, String, String)>, ps: &Vec<SortParam>) -> (r: Vec<SortParam>)
    ensures
        crate::sort::params_view(r@) == pb_params(triples_view(ts@), crate::sort::params_view(ps@), 0),
{
    let ghost tv = triples_view(ts@);
    let ghost pv = crate::sort::params_view(ps@);
    let mut out: Vec<SortParam> = Vec::new();
    proof {
        assert(crate::sort::params_view(out@) =~= Seq::<(Seq<char>, SSortExpr)>::empty());
    }
    let mut k: usize = 0;
    while k < ps.len()
        invariant
            tv == triples_view(ts@),
            pv == crate::sort::params_view(ps@),
            k <= ps@.len(),
            crate::sort::params_view(out@) + pb_params(tv, pv, k as int) == pb_params(tv, pv, 0),
        decreases ps@.len() - k,
    {
        let ghost before = crate::sort::params_view(out@);
        let ghost rest = pb_params(tv, pv, k + 1);
        let p = &ps[k];
        proof {
            assert(pv[k as int] == (p.name@, p.sort@));
        }
        let args = p.sort.args();
        let mut pushed = false;
        if args.len() == 0 {
            match first_triple_exec(ts, p.sort.head()) {
                Some(pbn) => {
                    let np = SortParam::new(p.name.as_str(), SortExpr::name(pbn.as_str()));
                    out.push(np);
                    pushed = true;
                    proof {
                        assert(crate::sort::params_view(out@) =~= before + seq![(p.name@, bare(pbn@))]);
                        assert(before + (seq![(p.name@, bare(pbn@))] + rest) =~= crate::sort::params_view(out@) + rest);
                    }
                },
                None => {},
            }
        }
        if !pushed {
            proof {
                assert(before + (Seq::<(Seq<char>, SSortExpr)>::empty() + rest) =~= before + rest);
            }
        }
        k = k + 1;
    }
    proof {
        assert(crate::sort::params_view(out@) + Seq::<(Seq<char>, SSortExpr)>::empty() =~= crate::sort::params_view(out@));
    }
    out
}

fn pb_sorts(t1: &Theory, ts: &Vec<(String, String, String)>) -> (r: Vec<Sort>)
    ensures
        Seq::new(r@.len(), |i: int| r@[i]@) == pb_sorts_from(*t1, triples_view(ts@), 0),
{
    let ghost tv = triples_view(ts@);
    let mut out: Vec<Sort> = Vec::new();
    proof {
        assert(Seq::new(out@.len(), |i: int| out@[i]@) =~= Seq::<SSort>::empty());
    }
    let mut k: usize = 0;
    while k < ts.len()
        invariant
            tv == triples_view(ts@),
            k <= ts@.len(),
            Seq::new(out@.len(), |i: int| out@[i]@) + pb_sorts_from(*t1, tv, k as int) == pb_sorts_from(*t1, tv, 0),
        decreases ts@.len() - k,
    {
        let ghost before = Seq::new(out@.len(), |i: int| out@[i]@);
        let ghost rest = pb_sorts_from(*t1, tv, k + 1);
        match t1.find_sort(ts[k].0.as_str()) {
            Some(s1) => {
                let srt = if s1.params.len() == 0 {
                    Sort::simple(ts[k].2.as_str())
                } else {
                    Sort::dependent(ts[k].2.as_str(), pb_params_exec(ts, &s1.params))
                };
                let ghost sv = srt@;
                proof {
                    assert(srt@.params =~= (if s1.params@.len() == 0 {
                        Seq::empty()
                    } else {
                        pb_params(tv, s1@.params, 0)
                    }));
                }
                out.push(srt);
                proof {
                    assert(Seq::new(out@.len(), |i: int| out@[i]@) =~= before + seq![sv]);
                    assert(before + (seq![sv] + rest) =~= Seq::new(out@.len(), |i: int| out@[i]@) + rest);
                }
            },
            None => {
                proof {
                    assert(before + (Seq::<SSort>::empty() + rest) =~= before + rest);
                }
            },
        }
        k = k + 1;
    }
    proof {
        let o = Seq::new(out@.len(), |i: int| out@[i]@);
        assert(o + Seq::<SSort>::empty() =~= o);
    }
    out
}


/// Whether `ts` pairs the first-theory name `a` with the second-theory
/// name `b`.
pub open spec fn has_pair(ts: Seq<NameTriple>, a: Seq<char>, b: Seq<char>) -> bool {
    exists|k: int| 0 <= k < ts.len() && #[trigger] ts[k].0 == a && ts[k].1 == b
}

/// Whether every input sort of `i1` is paired with the input sort of
/// `i2` at the same position (by their heads).
pub open spec fn inputs_paired(
    ts: Seq<NameTriple>,
    i1: Seq<(Seq<char>, SSortExpr, Implicit)>,
    i2: Seq<(Seq<char>, SSortExpr, Implicit)>,
) -> bool {
    forall|i: int| 0 <= i < i1.len() ==> has_pair(ts, #[trigger] i1[i].1.head, i2[i].1.head)
}

/// The pullback of the operations `o1` and `o2` (the latter named `c`):
/// defined when they have the same number of inputs and every input sort
/// and the output sort are paired; its inputs keep `o1`'s parameter
/// names over the paired sorts.
pub open spec fn pb_op(o1: SOperation, o2: SOperation, c: Seq<char>, ts: Seq<NameTriple>) -> Option<SOperation> {
    if o1.inputs.len() == o2.inputs.len() && inputs_paired(ts, o1.inputs, o2.inputs) && has_pair(
        ts,
        o1.output.head,
        o2.output.head,
    ) {
        Some(
            SOperation {
                name: paired_name(o1.name, c),
                inputs: Seq::new(
                    o1.inputs.len(),
                    |i: int| (o1.inputs[i].0, bare(paired_name(o1.inputs[i].1.head, o2.inputs[i].1.head)), Implicit::No),
                ),
                output: bare(paired_name(o1.output.head, o2.output.head)),
            },
        )
    } else {
        None
    }
}

/// The paired operations (with their name triples) of `o1` with the
/// candidate names from position `k` on.
pub open spec fn op_pairs_for(o1: Operation, t2: Theory, cands: Seq<Seq<char>>, ts: Seq<NameTriple>, k: int) -> Seq<(SOperation, NameTriple)>
    decreases (if 0 <= k < cands.len() { cands.len() - k } else { 0 }) as nat,
{
    if 0 <= k < cands.len() {
        let c = cands[k];
        (match first_named(op_names(t2.ops@), c) {
            Some(j) => match pb_op(o1@, t2.ops@[j]@, c, ts) {
                Some(o) => seq![(o, (o1.name@, c, paired_name(o1.name@, c)))],
                None => Seq::empty(),
            },
            None => Seq::empty(),
        }) + op_pairs_for(o1, t2, cands, ts, k + 1)
    } else {
        Seq::empty()
    }
}

/// The paired operations from the `i`-th operation of `t1` on.
pub open spec fn op_pairs_from(
    t1: Theory,
    t2: Theory,
    m1: TheoryMorphism,
    m2: TheoryMorphism,
    ts: Seq<NameTriple>,
    i: int,
) -> Seq<(SOperation, NameTriple)>
    decreases (if 0 <= i < t1.ops@.len() { t1.ops@.len() - i } else { 0 }) as nat,
{
    if 0 <= i < t1.ops@.len() {
        let o1 = t1.ops@[i];
        (if m1.op_map@.contains_key(o1.name@) {
            op_pairs_for(o1, t2, preimages(m2.op_map.entries@, m1.op_map@[o1.name@], 0), ts, 0)
        } else {
            Seq::empty()
        }) + op_pairs_from(t1, t2, m1, m2, ts, i + 1)
    } else {
        Seq::empty()
    }
}

fn has_pair_exec(ts: &Vec<(String, String, String)>, a: &String, b: &String) -> (r: bool)
    ensures
        r == has_pair(triples_view(ts@), a@, b@),
{
    let ghost tv = triples_view(ts@);
    let mut k: usize = 0;
    while k < ts.len()
        invariant
            tv == triples_view(ts@),
            k <= ts@.len(),
            forall|q: int| 0 <= q < k ==> !(#[trigger] tv[q].0 == a@ && tv[q].1 == b@),
        decreases ts@.len() - k,
    {
        if ts[k].0 == *a && ts[k].1 == *b {
            assert(tv[k as int].0 == a@ && tv[k as int].1 == b@);
            return true;
        }
        k = k + 1;
    }
    false
}

fn pb_op_exec(o1: &Operation, o2: &Operation, c: &String, ts: &Vec<(String, String, String)>) -> (r: Option<Operation>)
    ensures
        match r {
            Some(o) => pb_op(o1@, o2@, c@, triples_view(ts@)) == Some(o@),
            None => pb_op(o1@, o2@, c@, triples_view(ts@)) is None,
        },
{
    let ghost tv = triples_view(ts@);
    if o1.inputs.len() != o2.inputs.len() {
        return None;
    }
    let mut inputs: Vec<(String, SortExpr)> = Vec::new();
    let mut i: usize = 0;
    while i < o1.inputs.len()
        invariant
            tv == triples_view(ts@),
            o1.inputs@.len() == o2.inputs@.len(),
            i <= o1.inputs@.len(),
            inputs@.len() == i,
            forall|k: int| 0 <= k < i ==> has_pair(tv, #[trigger] o1@.inputs[k].1.head, o2@.inputs[k].1.head),
            forall|k: int| 0 <= k < i ==> #[trigger] inputs@[k].0@ == o1@.inputs[k].0 && inputs@[k].1@ == bare(
                paired_name(o1@.inputs[k].1.head, o2@.inputs[k].1.head),
            ),
        decreases o1.inputs@.len() - i,
    {
        let h1 = o1.inputs[i].1.head();
        let h2 = o2.inputs[i].1.head();
        if !has_pair_exec(ts, h1, h2) {
            proof {
                assert(!has_pair(tv, o1@.inputs[i as int].1.head, o2@.inputs[i as int].1.head));
                assert(!inputs_paired(tv, o1@.inputs, o2@.inputs));
            }
            return None;
        }
        let pb = paired_name_exec(h1, h2);
        inputs.push((o1.inputs[i].0.clone(), SortExpr::name(pb.as_str())));
        i = i + 1;
    }
    let oh1 = o1.output.head();
    let oh2 = o2.output.head();
    if !has_pair_exec(ts, oh1, oh2) {
        return None;
    }
    let name = paired_name_exec(&o1.name, c);
    let outp = paired_name_exec(oh1, oh2);
    let r = Operation::new(name.as_str(), inputs, SortExpr::name(outp.as_str()));
    proof {
        assert(r@.inputs =~= pb_op(o1@, o2@, c@, tv).unwrap().inputs);
    }
    Some(r)
}

fn pair_ops(
    t1: &Theory,
    t2: &Theory,
    m1: &TheoryMorphism,
    m2: &TheoryMorphism,
    ts: &Vec<(String, String, String)>,
) -> (r: (Vec<Operation>, Vec<(String, String, String)>))
    ensures
        ({
            let ps = op_pairs_from(*t1, *t2, *m1, *m2, triples_view(ts@), 0);
            &&& Seq::new(r.0@.len(), |i: int| r.0@[i]@) == Seq::new(ps.len(), |i: int| ps[i].0)
            &&& triples_view(r.1@) == Seq::new(ps.len(), |i: int| ps[i].1)
        }),
{
    let ghost tv = triples_view(ts@);
    let ghost total = op_pairs_from(*t1, *t2, *m1, *m2, tv, 0);
    let mut ops: Vec<Operation> = Vec::new();
    let mut trs: Vec<(String, String, String)> = Vec::new();
    let ghost mut acc: Seq<(SOperation, NameTriple)> = Seq::empty();
    let mut i: usize = 0;
    while i < t1.ops.len()
        invariant
            tv == triples_view(ts@),
            total == op_pairs_from(*t1, *t2, *m1, *m2, tv, 0),
            i <= t1.ops@.len(),
            acc + op_pairs_from(*t1, *t2, *m1, *m2, tv, i as int) == total,
            ops@.len() == acc.len(),
            trs@.len() == acc.len(),
            forall|k: int| 0 <= k < acc.len() ==> #[trigger] ops@[k]@ == acc[k].0 && (trs@[k].0@, trs@[k].1@, trs@[k].2@) == acc[k].1,
        decreases t1.ops@.len() - i,
    {
        let o1 = &t1.ops[i];
        let ghost before = acc;
        let ghost rest = op_pairs_from(*t1, *t2, *m1, *m2, tv, i + 1);
        match m1.op_map.get(&o1.name) {
            Some(cod) => {
                let cands = preimages_exec(&m2.op_map, cod);
                let ghost cv = crate::term::names_view(cands@);
                let mut k: usize = 0;
                while k < cands.len()
                    invariant
                        cv == crate::term::names_view(cands@),
                        tv == triples_view(ts@),
                        k <= cands@.len(),
                        acc + op_pairs_for(*o1, *t2, cv, tv, k as int) == before + op_pairs_for(*o1, *t2, cv, tv, 0),
                        ops@.len() == acc.len(),
                        trs@.len() == acc.len(),
                        forall|q: int| 0 <= q < acc.len() ==> #[trigger] ops@[q]@ == acc[q].0 && (trs@[q].0@, trs@[q].1@, trs@[q].2@) == acc[q].1,
                    decreases cands@.len() - k,
                {
                    let c = &cands[k];
                    let ghost b2 = acc;
                    let ghost r2 = op_pairs_for(*o1, *t2, cv, tv, k + 1);
                    proof {
                        assert(cv[k as int] == c@);
                    }
                    let mut added = false;
                    match t2.find_op(c.as_str()) {
                        Some(o2) => {
                            match pb_op_exec(o1, o2, c, ts) {
                                Some(po) => {
                                    let pb = paired_name_exec(&o1.name, c);
                                    let ghost entry = (po@, (o1.name@, c@, pb@));
                                    ops.push(po);
                                    trs.push((o1.name.clone(), c.clone(), pb));
                                    proof {
                                        acc = acc.push(entry);
                                        assert(b2 + (seq![entry] + r2) =~= acc + r2);
                                    }
                                    added = true;
                                },
                                None => {},
                            }
                        },
                        None => {},
                    }
                    if !added {
                        proof {
                            assert(b2 + (Seq::<(SOperation, NameTriple)>::empty() + r2) =~= b2 + r2);
                        }
                    }
                    k = k + 1;
                }
                proof {
                    assert(acc + Seq::<(SOperation, NameTriple)>::empty() =~= acc);
                    let here = op_pairs_for(*o1, *t2, cv, tv, 0);
                    assert(before + (here + rest) =~= (before + here) + rest);
                }
            },
            None => {
                proof {
                    assert(before + (Seq::<(SOperation, NameTriple)>::empty() + rest) =~= before + rest);
                }
            },
        }
        i = i + 1;
    }
    proof {
        assert(acc + Seq::<(SOperation, NameTriple)>::empty() =~= acc);
        assert(Seq::new(ops@.len(), |i: int| ops@[i]@) =~= Seq::new(total.len(), |i: int| total[i].0));
        assert forall|k: int| 0 <= k < trs@.len() implies #[trigger] triples_view(trs@)[k] == total[k].1 by {
            assert(ops@[k]@ == acc[k].0);
            assert((trs@[k].0@, trs@[k].1@, trs@[k].2@) == acc[k].1);
        }
        assert(triples_view(trs@) =~= Seq::new(total.len(), |i: int| total[i].1));
    }
    (ops, trs)
}


/// The map from each triple's first name to its pullback name; a later
/// triple overrides an earlier one.
pub open spec fn first_to_pb(ts: Seq<NameTriple>) -> Map<Seq<char>, Seq<char>>
    decreases ts.len(),
{
    if ts.len() == 0 {
        Map::empty()
    } else {
        first_to_pb(ts.drop_last()).insert(ts.last().0, ts.last().2)
    }
}

/// The map from each triple's pullback name to its first name; a later
/// triple overrides an earlier one.
pub open spec fn pb_to_first(ts: Seq<NameTriple>) -> Map<Seq<char>, Seq<char>>
    decreases ts.len(),
{
    if ts.len() == 0 {
        Map::empty()
    } else {
        pb_to_first(ts.drop_last()).insert(ts.last().2, ts.last().0)
    }
}

/// The map from each triple's pullback name to its second name; a later
/// triple overrides an earlier one.
pub open spec fn pb_to_second(ts: Seq<NameTriple>) -> Map<Seq<char>, Seq<char>>
    decreases ts.len(),
{
    if ts.len() == 0 {
        Map::empty()
    } else {
        pb_to_second(ts.drop_last()).insert(ts.last().2, ts.last().1)
    }
}

/// Build the three maps of a list of triples.
fn triple_maps(ts: &Vec<(String, String, String)>) -> (r: (RenameMap, RenameMap, RenameMap))
    ensures
        r.0@ == first_to_pb(triples_view(ts@)),
        r.1@ == pb_to_first(triples_view(ts@)),
        r.2@ == pb_to_second(triples_view(ts@)),
{
    let ghost tv = triples_view(ts@);
    let mut a = RenameMap::new();
    let mut b = RenameMap::new();
    let mut c = RenameMap::new();
    let mut k: usize = 0;
    proof {
        assert(tv.take(0) =~= Seq::<NameTriple>::empty());
    }
    while k < ts.len()
        invariant
            tv == triples_view(ts@),
            k <= ts@.len(),
            a@ == first_to_pb(tv.take(k as int)),
            b@ == pb_to_first(tv.take(k as int)),
            c@ == pb_to_second(tv.take(k as int)),
        decreases ts@.len() - k,
    {
        let t = &ts[k];
        a.insert(t.0.clone(), t.2.clone());
        b.insert(t.2.clone(), t.0.clone());
        c.insert(t.2.clone(), t.1.clone());
        proof {
            let nt = tv.take(k + 1);
            assert(nt.drop_last() =~= tv.take(k as int));
            assert(nt.last() == (t.0@, t.1@, t.2@));
        }
        k = k + 1;
    }
    proof {
        assert(tv.take(tv.len() as int) =~= tv);
    }
    (a, b, c)
}

/// The equations pairing `eq1` with the equations of `eqs2` from position
/// `k` on: where the two agree up to renaming of variables once mapped
/// into the codomain, an equation named by the pair, with `eq1`'s sides
/// renamed into the pullback.
pub open spec fn eq_pairs_for(
    eq1: SEquation,
    eqs2: Seq<SEquation>,
    om1: Map<Seq<char>, Seq<char>>,
    om2: Map<Seq<char>, Seq<char>>,
    ren: Map<Seq<char>, Seq<char>>,
    k: int,
) -> Seq<SEquation>
    decreases (if 0 <= k < eqs2.len() { eqs2.len() - k } else { 0 }) as nat,
{
    if 0 <= k < eqs2.len() {
        let eq2 = eqs2[k];
        (if alpha_equiv_equation(
            rename_ops_spec(eq1.lhs, om1),
            rename_ops_spec(eq1.rhs, om1),
            rename_ops_spec(eq2.lhs, om2),
            rename_ops_spec(eq2.rhs, om2),
        ) {
            seq![
                SEquation {
                    name: paired_name(eq1.name, eq2.name),
                    lhs: rename_ops_spec(eq1.lhs, ren),
                    rhs: rename_ops_spec(eq1.rhs, ren),
                },
            ]
        } else {
            Seq::empty()
        }) + eq_pairs_for(eq1, eqs2, om1, om2, ren, k + 1)
    } else {
        Seq::empty()
    }
}

/// The paired equations from the `i`-th equation of `eqs1` on.
pub open spec fn pb_eqs_from(
    eqs1: Seq<SEquation>,
    eqs2: Seq<SEquation>,
    om1: Map<Seq<char>, Seq<char>>,
    om2: Map<Seq<char>, Seq<char>>,
    ren: Map<Seq<char>, Seq<char>>,
    i: int,
) -> Seq<SEquation>
    decreases (if 0 <= i < eqs1.len() { eqs1.len() - i } else { 0 }) as nat,
{
    if 0 <= i < eqs1.len() {
        eq_pairs_for(eqs1[i], eqs2, om1, om2, ren, 0) + pb_eqs_from(eqs1, eqs2, om1, om2, ren, i + 1)
    } else {
        Seq::empty()
    }
}

/// The directed equations pairing `d1` with those of `ds2` from position
/// `k` on, like [`eq_pairs_for`]; the rest of each comes from `d1`.
pub open spec fn rule_pairs_for(
    d1: SDirectedEquation,
    ds2: Seq<SDirectedEquation>,
    om1: Map<Seq<char>, Seq<char>>,
    om2: Map<Seq<char>, Seq<char>>,
    ren: Map<Seq<char>, Seq<char>>,
    k: int,
) -> Seq<SDirectedEquation>
    decreases (if 0 <= k < ds2.len() { ds2.len() - k } else { 0 }) as nat,
{
    if 0 <= k < ds2.len() {
        let d2 = ds2[k];
        (if alpha_equiv_equation(
            rename_ops_spec(d1.lhs, om1),
            rename_ops_spec(d1.rhs, om1),
            rename_ops_spec(d2.lhs, om2),
            rename_ops_spec(d2.rhs, om2),
        ) {
            seq![
                SDirectedEquation {
                    name: paired_name(d1.name, d2.name),
                    lhs: rename_ops_spec(d1.lhs, ren),
                    rhs: rename_ops_spec(d1.rhs, ren),
                    impl_term: d1.impl_term,
                    inverse: d1.inverse,
                    source_kind: d1.source_kind,
                    target_kind: d1.target_kind,
                    coercion_class: d1.coercion_class,
                },
            ]
        } else {
            Seq::empty()
        }) + rule_pairs_for(d1, ds2, om1, om2, ren, k + 1)
    } else {
        Seq::empty()
    }
}

/// The paired directed equations from the `i`-th of `ds1` on.
pub open spec fn pb_rules_from(
    ds1: Seq<SDirectedEquation>,
    ds2: Seq<SDirectedEquation>,
    om1: Map<Seq<char>, Seq<char>>,
    om2: Map<Seq<char>, Seq<char>>,
    ren: Map<Seq<char>, Seq<char>>,
    i: int,
) -> Seq<SDirectedEquation>
    decreases (if 0 <= i < ds1.len() { ds1.len() - i } else { 0 }) as nat,
{
    if 0 <= i < ds1.len() {
        rule_pairs_for(ds1[i], ds2, om1, om2, ren, 0) + pb_rules_from(ds1, ds2, om1, om2, ren, i + 1)
    } else {
        Seq::empty()
    }
}

fn pair_eqs(t1: &Theory, t2: &Theory, m1: &TheoryMorphism, m2: &TheoryMorphism, ren: &RenameMap) -> (r: Vec<Equation>)
    ensures
        Seq::new(r@.len(), |i: int| r@[i]@) == pb_eqs_from(t1@.eqs, t2@.eqs, m1.op_map@, m2.op_map@, ren@, 0),
{
    let ghost e1 = t1@.eqs;
    let ghost e2 = t2@.eqs;
    let ghost total = pb_eqs_from(e1, e2, m1.op_map@, m2.op_map@, ren@, 0);
    let mut out: Vec<Equation> = Vec::new();
    proof {
        assert(Seq::new(out@.len(), |i: int| out@[i]@) =~= Seq::<SEquation>::empty());
    }
    let mut i: usize = 0;
    while i < t1.eqs.len()
        invariant
            e1 == t1@.eqs,
            e2 == t2@.eqs,
            total == pb_eqs_from(e1, e2, m1.op_map@, m2.op_map@, ren@, 0),
            i <= t1.eqs@.len(),
            Seq::new(out@.len(), |i: int| out@[i]@) + pb_eqs_from(e1, e2, m1.op_map@, m2.op_map@, ren@, i as int) == total,
        decreases t1.eqs@.len() - i,
    {
        let eq1 = &t1.eqs[i];
        proof {
            assert(e1[i as int] == eq1@);
        }
        let l1 = m1.apply_to_term(&eq1.lhs);
        let r1 = m1.apply_to_term(&eq1.rhs);
        let ghost before = Seq::new(out@.len(), |i: int| out@[i]@);
        let ghost rest = pb_eqs_from(e1, e2, m1.op_map@, m2.op_map@, ren@, i + 1);
        let mut k: usize = 0;
        while k < t2.eqs.len()
            invariant
                e2 == t2@.eqs,
                k <= t2.eqs@.len(),
                l1@ == rename_ops_spec(eq1@.lhs, m1.op_map@),
                r1@ == rename_ops_spec(eq1@.rhs, m1.op_map@),
                Seq::new(out@.len(), |i: int| out@[i]@) + eq_pairs_for(eq1@, e2, m1.op_map@, m2.op_map@, ren@, k as int)
                    == before + eq_pairs_for(eq1@, e2, m1.op_map@, m2.op_map@, ren@, 0),
            decreases t2.eqs@.len() - k,
        {
            let eq2 = &t2.eqs[k];
            proof {
                assert(e2[k as int] == eq2@);
            }
            let ghost b2 = Seq::new(out@.len(), |i: int| out@[i]@);
            let ghost r2 = eq_pairs_for(eq1@, e2, m1.op_map@, m2.op_map@, ren@, k + 1);
            let l2 = m2.apply_to_term(&eq2.lhs);
            let r2t = m2.apply_to_term(&eq2.rhs);
            if alpha_equivalent_equation(&l1, &r1, &l2, &r2t) {
                let name = paired_name_exec(&eq1.name, &eq2.name);
                let ne = Equation::new(name.as_str(), eq1.lhs.rename_ops(ren), eq1.rhs.rename_ops(ren));
                let ghost nv = ne@;
                out.push(ne);
                proof {
                    assert(Seq::new(out@.len(), |i: int| out@[i]@) =~= b2 + seq![nv]);
                    assert(b2 + (seq![nv] + r2) =~= Seq::new(out@.len(), |i: int| out@[i]@) + r2);
                }
            } else {
                proof {
                    assert(b2 + (Seq::<SEquation>::empty() + r2) =~= b2 + r2);
                }
            }
            k = k + 1;
        }
        proof {
            let o = Seq::new(out@.len(), |i: int| out@[i]@);
            assert(o + Seq::<SEquation>::empty() =~= o);
            let here = eq_pairs_for(eq1@, e2, m1.op_map@, m2.op_map@, ren@, 0);
            assert(before + (here + rest) =~= (before + here) + rest);
        }
        i = i + 1;
    }
    proof {
        let o = Seq::new(out@.len(), |i: int| out@[i]@);
        assert(o + Seq::<SEquation>::empty() =~= o);
    }
    out
}

fn pair_rules(t1: &Theory, t2: &Theory, m1: &TheoryMorphism, m2: &TheoryMorphism, ren: &RenameMap) -> (r: Vec<DirectedEquation>)
    ensures
        Seq::new(r@.len(), |i: int| r@[i]@) == pb_rules_from(t1@.directed_eqs, t2@.directed_eqs, m1.op_map@, m2.op_map@, ren@, 0),
{
    let ghost e1 = t1@.directed_eqs;
    let ghost e2 = t2@.directed_eqs;
    let ghost total = pb_rules_from(e1, e2, m1.op_map@, m2.op_map@, ren@, 0);
    let mut out: Vec<DirectedEquation> = Vec::new();
    proof {
        assert(Seq::new(out@.len(), |i: int| out@[i]@) =~= Seq::<SDirectedEquation>::empty());
    }
    let mut i: usize = 0;
    while i < t1.directed_eqs.len()
        invariant
            e1 == t1@.directed_eqs,
            e2 == t2@.directed_eqs,
            total == pb_rules_from(e1, e2, m1.op_map@, m2.op_map@, ren@, 0),
            i <= t1.directed_eqs@.len(),
            Seq::new(out@.len(), |i: int| out@[i]@) + pb_rules_from(e1, e2, m1.op_map@, m2.op_map@, ren@, i as int) == total,
        decreases t1.directed_eqs@.len() - i,
    {
        let d1 = &t1.directed_eqs[i];
        proof {
            assert(e1[i as int] == d1@);
        }
        let l1 = m1.apply_to_term(&d1.lhs);
        let r1 = m1.apply_to_term(&d1.rhs);
        let ghost before = Seq::new(out@.len(), |i: int| out@[i]@);
        let ghost rest = pb_rules_from(e1, e2, m1.op_map@, m2.op_map@, ren@, i + 1);
        let mut k: usize = 0;
        while k < t2.directed_eqs.len()
            invariant
                e2 == t2@.directed_eqs,
                k <= t2.directed_eqs@.len(),
                l1@ == rename_ops_spec(d1@.lhs, m1.op_map@),
                r1@ == rename_ops_spec(d1@.rhs, m1.op_map@),
                Seq::new(out@.len(), |i: int| out@[i]@) + rule_pairs_for(d1@, e2, m1.op_map@, m2.op_map@, ren@, k as int)
                    == before + rule_pairs_for(d1@, e2, m1.op_map@, m2.op_map@, ren@, 0),
            decreases t2.directed_eqs@.len() - k,
        {
            let d2 = &t2.directed_eqs[k];
            proof {
                assert(e2[k as int] == d2@);
            }
            let ghost b2 = Seq::new(out@.len(), |i: int| out@[i]@);
            let ghost r2 = rule_pairs_for(d1@, e2, m1.op_map@, m2.op_map@, ren@, k + 1);
            let l2 = m2.apply_to_term(&d2.lhs);
            let r2t = m2.apply_to_term(&d2.rhs);
            if alpha_equivalent_equation(&l1, &r1, &l2, &r2t) {
                let name = paired_name_exec(&d1.name, &d2.name);
                let nd = DirectedEquation {
                    name,
                    lhs: d1.lhs.rename_ops(ren),
                    rhs: d1.rhs.rename_ops(ren),
                    impl_term: d1.impl_term.clone(),
                    inverse: d1.inverse.clone(),
                    source_kind: d1.source_kind,
                    target_kind: d1.target_kind,
                    coercion_class: d1.coercion_class,
                };
                let ghost nv = nd@;
                out.push(nd);
                proof {
                    assert(Seq::new(out@.len(), |i: int| out@[i]@) =~= b2 + seq![nv]);
                    assert(b2 + (seq![nv] + r2) =~= Seq::new(out@.len(), |i: int| out@[i]@) + r2);
                }
            } else {
                proof {
                    assert(b2 + (Seq::<SDirectedEquation>::empty() + r2) =~= b2 + r2);
                }
            }
            k = k + 1;
        }
        proof {
            let o = Seq::new(out@.len(), |i: int| out@[i]@);
            assert(o + Seq::<SDirectedEquation>::empty() =~= o);
            let here = rule_pairs_for(d1@, e2, m1.op_map@, m2.op_map@, ren@, 0);
            assert(before + (here + rest) =~= (before + here) + rest);
        }
        i = i + 1;
    }
    proof {
        let o = Seq::new(out@.len(), |i: int| out@[i]@);
        assert(o + Seq::<SDirectedEquation>::empty() =~= o);
    }
    out
}


/// A pullback: the theory and its projections to the two sources.
#[derive(Debug)]
pub struct PullbackResult {
    /// The pullback theory.
    pub theory: Theory,
    /// The projection to the first theory.
    pub proj1: TheoryMorphism,
    /// The projection to the second theory.
    pub proj2: TheoryMorphism,
}

/// The name of the pullback of `t1` and `t2`.
pub open spec fn pullback_name(n1: Seq<char>, n2: Seq<char>) -> Seq<char> {
    n1 + "_"@ + n2 + "_pullback"@
}

/// The sort triples of the pullback.
pub open spec fn pullback_sort_triples(t1: Theory, t2: Theory, m1: TheoryMorphism, m2: TheoryMorphism) -> Seq<NameTriple> {
    sort_triples_from(t1, t2, m1, m2, 0)
}

/// The paired operations of the pullback, with their triples.
pub open spec fn pullback_op_pairs(t1: Theory, t2: Theory, m1: TheoryMorphism, m2: TheoryMorphism) -> Seq<(SOperation, NameTriple)> {
    op_pairs_from(t1, t2, m1, m2, pullback_sort_triples(t1, t2, m1, m2), 0)
}

/// The operation triples of the pullback.
pub open spec fn pullback_op_triples(t1: Theory, t2: Theory, m1: TheoryMorphism, m2: TheoryMorphism) -> Seq<NameTriple> {
    let ps = pullback_op_pairs(t1, t2, m1, m2);
    Seq::new(ps.len(), |i: int| ps[i].1)
}

/// The pullback theory of `t1` and `t2` over `m1` and `m2`: its sorts pair
/// the sorts the two morphisms send to the same sort, its operations pair
/// operations likewise where their sorts are paired, and its equations
/// and directed equations pair those that agree in the codomain.
pub open spec fn pullback_theory(t1: Theory, t2: Theory, m1: TheoryMorphism, m2: TheoryMorphism) -> STheory {
    let ts = pullback_sort_triples(t1, t2, m1, m2);
    let ps = pullback_op_pairs(t1, t2, m1, m2);
    let ren = first_to_pb(pullback_op_triples(t1, t2, m1, m2));
    STheory {
        name: pullback_name(t1.name@, t2.name@),
        extends: Seq::empty(),
        sorts: pb_sorts_from(t1, ts, 0),
        ops: Seq::new(ps.len(), |i: int| ps[i].0),
        eqs: pb_eqs_from(t1@.eqs, t2@.eqs, m1.op_map@, m2.op_map@, ren, 0),
        directed_eqs: pb_rules_from(t1@.directed_eqs, t2@.directed_eqs, m1.op_map@, m2.op_map@, ren, 0),
        policies: Seq::empty(),
    }
}

/// The keys of a renaming's entries, in entry order.
pub open spec fn entry_keys(es: Seq<(String, String)>) -> Seq<Seq<char>> {
    Seq::new(es.len(), |i: int| es[i].0@)
}

/// The first name a morphism maps whose sort (or, unless `sorts`,
/// operation) its source theory `t` lacks.
pub open spec fn first_unknown(t: Theory, m: TheoryMorphism, sorts: bool) -> Option<Seq<char>> {
    if sorts {
        crate::pushout::first_missing(entry_keys(m.sort_map.entries@), sort_names(t.sorts@), 0)
    } else {
        crate::pushout::first_missing(entry_keys(m.op_map.entries@), op_names(t.ops@), 0)
    }
}

/// The error of [`pullback`], if any: a sort that `m1` maps but `t1`
/// lacks, then such an operation, then the same for `m2` and `t2`.
pub open spec fn pullback_error(t1: Theory, t2: Theory, m1: TheoryMorphism, m2: TheoryMorphism) -> Option<SGatError> {
    match first_unknown(t1, m1, true) {
        Some(n) => Some(SGatError::SortNotFound(n)),
        None => match first_unknown(t1, m1, false) {
            Some(n) => Some(SGatError::OpNotFound(n)),
            None => match first_unknown(t2, m2, true) {
                Some(n) => Some(SGatError::SortNotFound(n)),
                None => match first_unknown(t2, m2, false) {
                    Some(n) => Some(SGatError::OpNotFound(n)),
                    None => None,
                },
            },
        },
    }
}

/// The first key of `m` whose name `t` does not declare as a sort (or,
/// unless `sorts`, as an operation).
fn first_unknown_exec(t: &Theory, m: &RenameMap, sorts: bool) -> (r: Option<String>)
    ensures
        crate::term::opt_name_view(r) == crate::pushout::first_missing(
            entry_keys(m.entries@),
            if sorts { sort_names(t.sorts@) } else { op_names(t.ops@) },
            0,
        ),
{
    let ghost keys = entry_keys(m.entries@);
    let ghost present = if sorts { sort_names(t.sorts@) } else { op_names(t.ops@) };
    let mut i: usize = 0;
    while i < m.entries.len()
        invariant
            keys == entry_keys(m.entries@),
            present == (if sorts { sort_names(t.sorts@) } else { op_names(t.ops@) }),
            i <= keys.len(),
            crate::pushout::first_missing(keys, present, i as int) == crate::pushout::first_missing(keys, present, 0),
        decreases keys.len() - i,
    {
        let k = &m.entries[i].0;
        let known = if sorts { t.has_sort(k.as_str()) } else { t.has_op(k.as_str()) };
        proof {
            crate::theory::lemma_first_named(present, k@);
            assert(keys[i as int] == k@);
        }
        if !known {
            return Some(k.clone());
        }
        i = i + 1;
    }
    None
}

/// The pullback of `t1` and `t2` over the morphisms `m1: t1 -> T` and
/// `m2: t2 -> T`, with its projections `p1` and `p2`. A morphism that maps
/// a sort or operation its source theory lacks is an error.
pub fn pullback(t1: &Theory, t2: &Theory, m1: &TheoryMorphism, m2: &TheoryMorphism) -> (r: Result<PullbackResult, GatError>)
    ensures
        pullback_error(*t1, *t2, *m1, *m2) matches Some(e) ==> r matches Err(x) && x@ == e,
        pullback_error(*t1, *t2, *m1, *m2) is None ==> match r {
            Ok(res) => {
                let pbn = pullback_name(t1.name@, t2.name@);
                let ts = pullback_sort_triples(*t1, *t2, *m1, *m2);
                let ots = pullback_op_triples(*t1, *t2, *m1, *m2);
                &&& res.theory@ == pullback_theory(*t1, *t2, *m1, *m2)
                &&& res.proj1.name@ == pbn + "_proj1"@
                &&& res.proj1.domain@ == pbn
                &&& res.proj1.codomain@ == t1.name@
                &&& res.proj1.sort_map@ == pb_to_first(ts)
                &&& res.proj1.op_map@ == pb_to_first(ots)
                &&& res.proj2.name@ == pbn + "_proj2"@
                &&& res.proj2.domain@ == pbn
                &&& res.proj2.codomain@ == t2.name@
                &&& res.proj2.sort_map@ == pb_to_second(ts)
                &&& res.proj2.op_map@ == pb_to_second(ots)
            },
            Err(_) => false,
        },
{
    if let Some(n) = first_unknown_exec(t1, &m1.sort_map, true) {
        return Err(GatError::SortNotFound(n));
    }
    if let Some(n) = first_unknown_exec(t1, &m1.op_map, false) {
        return Err(GatError::OpNotFound(n));
    }
    if let Some(n) = first_unknown_exec(t2, &m2.sort_map, true) {
        return Err(GatError::SortNotFound(n));
    }
    if let Some(n) = first_unknown_exec(t2, &m2.op_map, false) {
        return Err(GatError::OpNotFound(n));
    }
    let ts = sort_triples(t1, t2, m1, m2);
    let sorts = pb_sorts(t1, &ts);
    let (ops, ots) = pair_ops(t1, t2, m1, m2, &ts);
    let (ren, p1o, p2o) = triple_maps(&ots);
    let (_unused, p1s, p2s) = triple_maps(&ts);
    let eqs = pair_eqs(t1, t2, m1, m2, &ren);
    let rules = pair_rules(t1, t2, m1, m2, &ren);
    proof {
        reveal_strlit("_");
        reveal_strlit("_pullback");
        reveal_strlit("_proj1");
        reveal_strlit("_proj2");
    }
    let mut pbn = t1.name.clone();
    pbn.append("_");
    pbn.append(t2.name.as_str());
    pbn.append("_pullback");
    let theory = Theory::full(pbn.as_str(), Vec::new(), sorts, ops, eqs, rules, Vec::new());
    let mut n1 = pbn.clone();
    n1.append("_proj1");
    let mut n2 = pbn.clone();
    n2.append("_proj2");
    let proj1 = TheoryMorphism::new(n1.as_str(), pbn.as_str(), t1.name.as_str(), p1s, p1o);
    let proj2 = TheoryMorphism::new(n2.as_str(), pbn.as_str(), t2.name.as_str(), p2s, p2o);
    proof {
        assert(pbn@ =~= pullback_name(t1.name@, t2.name@));
        assert(n1@ =~= pbn@ + "_proj1"@);
        assert(n2@ =~= pbn@ + "_proj2"@);
        let pt = pullback_theory(*t1, *t2, *m1, *m2);
        assert(theory@.extends =~= pt.extends);
        assert(theory@.policies =~= pt.policies);
        assert(theory@.sorts =~= pt.sorts);
        assert(theory@.ops =~= pt.ops);
        assert(theory@.eqs =~= pt.eqs);
        assert(theory@.directed_eqs =~= pt.directed_eqs);
    }
    Ok(PullbackResult { theory, proj1, proj2 })
}


// ---------------------------------------------------------------------------
// Laws
// ---------------------------------------------------------------------------

proof fn lemma_preimage_maps(es: Seq<(String, String)>, cod: Seq<char>, i: int, x: Seq<char>)
    requires
        preimages(es, cod, i).contains(x),
    ensures
        entries_map(es).contains_key(x),
        entries_map(es)[x] == cod,
    decreases (if 0 <= i < es.len() { es.len() - i } else { 0 }) as nat,
{
    if 0 <= i < es.len() {
        let head = if entry_live(es, i) && es[i].1@ == cod {
            seq![es[i].0@]
        } else {
            Seq::<Seq<char>>::empty()
        };
        let rest = preimages(es, cod, i + 1);
        let q = choose|q: int| 0 <= q < preimages(es, cod, i).len() && preimages(es, cod, i)[q] == x;
        if q < head.len() {
            assert(es[i].0@ == x);
            crate::maps::lemma_entries_map_last(es, i, x);
        } else {
            assert(rest[q - head.len()] == x);
            lemma_preimage_maps(es, cod, i + 1, x);
        }
    }
}

/// Every triple of [`sort_pairs_for`] pairs `s1` with a candidate.
proof fn lemma_sort_pairs_for(s1: Sort, t2: Theory, cands: Seq<Seq<char>>, k: int, q: int)
    requires
        0 <= q < sort_pairs_for(s1, t2, cands, k).len(),
    ensures
        sort_pairs_for(s1, t2, cands, k)[q].0 == s1.name@,
        cands.contains(sort_pairs_for(s1, t2, cands, k)[q].1),
    decreases (if 0 <= k < cands.len() { cands.len() - k } else { 0 }) as nat,
{
    if 0 <= k < cands.len() {
        let c = cands[k];
        let head = match first_named(sort_names(t2.sorts@), c) {
            Some(j) => if s1.params@.len() == t2.sorts@[j].params@.len() {
                seq![(s1.name@, c, paired_name(s1.name@, c))]
            } else {
                Seq::<NameTriple>::empty()
            },
            None => Seq::<NameTriple>::empty(),
        };
        if q >= head.len() {
            lemma_sort_pairs_for(s1, t2, cands, k + 1, q - head.len());
        }
    }
}

/// Every sort triple pairs names that the two morphisms send to the same
/// sort.
proof fn lemma_sort_triples_agree(t1: Theory, t2: Theory, m1: TheoryMorphism, m2: TheoryMorphism, i: int, q: int)
    requires
        0 <= q < sort_triples_from(t1, t2, m1, m2, i).len(),
    ensures
        ({
            let t = sort_triples_from(t1, t2, m1, m2, i)[q];
            &&& m1.sort_map@.contains_key(t.0)
            &&& m2.sort_map@.contains_key(t.1)
            &&& m1.sort_map@[t.0] == m2.sort_map@[t.1]
        }),
    decreases (if 0 <= i < t1.sorts@.len() { t1.sorts@.len() - i } else { 0 }) as nat,
{
    if 0 <= i < t1.sorts@.len() {
        let s1 = t1.sorts@[i];
        let head = if m1.sort_map@.contains_key(s1.name@) {
            sort_pairs_for(s1, t2, preimages(m2.sort_map.entries@, m1.sort_map@[s1.name@], 0), 0)
        } else {
            Seq::<NameTriple>::empty()
        };
        if q < head.len() {
            let cands = preimages(m2.sort_map.entries@, m1.sort_map@[s1.name@], 0);
            lemma_sort_pairs_for(s1, t2, cands, 0, q);
            lemma_preimage_maps(m2.sort_map.entries@, m1.sort_map@[s1.name@], 0, head[q].1);
        } else {
            lemma_sort_triples_agree(t1, t2, m1, m2, i + 1, q - head.len());
        }
    }
}

proof fn lemma_op_pairs_for(o1: Operation, t2: Theory, cands: Seq<Seq<char>>, ts: Seq<NameTriple>, k: int, q: int)
    requires
        0 <= q < op_pairs_for(o1, t2, cands, ts, k).len(),
    ensures
        op_pairs_for(o1, t2, cands, ts, k)[q].1.0 == o1.name@,
        cands.contains(op_pairs_for(o1, t2, cands, ts, k)[q].1.1),
    decreases (if 0 <= k < cands.len() { cands.len() - k } else { 0 }) as nat,
{
    if 0 <= k < cands.len() {
        let c = cands[k];
        let head = match first_named(op_names(t2.ops@), c) {
            Some(j) => match pb_op(o1@, t2.ops@[j]@, c, ts) {
                Some(o) => seq![(o, (o1.name@, c, paired_name(o1.name@, c)))],
                None => Seq::<(SOperation, NameTriple)>::empty(),
            },
            None => Seq::<(SOperation, NameTriple)>::empty(),
        };
        if q >= head.len() {
            lemma_op_pairs_for(o1, t2, cands, ts, k + 1, q - head.len());
        }
    }
}

proof fn lemma_op_pairs_agree(t1: Theory, t2: Theory, m1: TheoryMorphism, m2: TheoryMorphism, ts: Seq<NameTriple>, i: int, q: int)
    requires
        0 <= q < op_pairs_from(t1, t2, m1, m2, ts, i).len(),
    ensures
        ({
            let t = op_pairs_from(t1, t2, m1, m2, ts, i)[q].1;
            &&& m1.op_map@.contains_key(t.0)
            &&& m2.op_map@.contains_key(t.1)
            &&& m1.op_map@[t.0] == m2.op_map@[t.1]
        }),
    decreases (if 0 <= i < t1.ops@.len() { t1.ops@.len() - i } else { 0 }) as nat,
{
    if 0 <= i < t1.ops@.len() {
        let o1 = t1.ops@[i];
        let head = if m1.op_map@.contains_key(o1.name@) {
            op_pairs_for(o1, t2, preimages(m2.op_map.entries@, m1.op_map@[o1.name@], 0), ts, 0)
        } else {
            Seq::<(SOperation, NameTriple)>::empty()
        };
        if q < head.len() {
            let cands = preimages(m2.op_map.entries@, m1.op_map@[o1.name@], 0);
            lemma_op_pairs_for(o1, t2, cands, ts, 0, q);
            lemma_preimage_maps(m2.op_map.entries@, m1.op_map@[o1.name@], 0, head[q].1.1);
        } else {
            lemma_op_pairs_agree(t1, t2, m1, m2, ts, i + 1, q - head.len());
        }
    }
}

/// The two projection maps of a list of triples have the same domain,
/// and at each name they give the two names of one triple.
proof fn lemma_projections_of(ts: Seq<NameTriple>, x: Seq<char>)
    ensures
        pb_to_first(ts).contains_key(x) == pb_to_second(ts).contains_key(x),
        pb_to_first(ts).contains_key(x) ==> exists|k: int|
            0 <= k < ts.len() && #[trigger] ts[k].2 == x && pb_to_first(ts)[x] == ts[k].0 && pb_to_second(ts)[x] == ts[k].1,
    decreases ts.len(),
{
    if ts.len() > 0 {
        lemma_projections_of(ts.drop_last(), x);
        if ts.last().2 == x {
            assert(ts[ts.len() - 1].2 == x);
        } else if pb_to_first(ts).contains_key(x) {
            let k = choose|k: int|
                0 <= k < ts.drop_last().len() && #[trigger] ts.drop_last()[k].2 == x && pb_to_first(ts.drop_last())[x]
                    == ts.drop_last()[k].0 && pb_to_second(ts.drop_last())[x] == ts.drop_last()[k].1;
            assert(ts[k].2 == x);
        }
    }
}

/// The pullback square commutes: for every sort of the pullback, the first
/// morphism after the first projection and the second morphism after the
/// second projection send it to the same sort; likewise for operations.
pub proof fn lemma_pullback_commutes(t1: Theory, t2: Theory, m1: TheoryMorphism, m2: TheoryMorphism, x: Seq<char>)
    ensures
        ({
            let p1 = pb_to_first(pullback_sort_triples(t1, t2, m1, m2));
            let p2 = pb_to_second(pullback_sort_triples(t1, t2, m1, m2));
            p1.contains_key(x) ==> {
                &&& p2.contains_key(x)
                &&& m1.sort_map@.contains_key(p1[x])
                &&& m2.sort_map@.contains_key(p2[x])
                &&& m1.sort_map@[p1[x]] == m2.sort_map@[p2[x]]
            }
        }),
        ({
            let p1 = pb_to_first(pullback_op_triples(t1, t2, m1, m2));
            let p2 = pb_to_second(pullback_op_triples(t1, t2, m1, m2));
            p1.contains_key(x) ==> {
                &&& p2.contains_key(x)
                &&& m1.op_map@.contains_key(p1[x])
                &&& m2.op_map@.contains_key(p2[x])
                &&& m1.op_map@[p1[x]] == m2.op_map@[p2[x]]
            }
        }),
{
    let ts = pullback_sort_triples(t1, t2, m1, m2);
    lemma_projections_of(ts, x);
    if pb_to_first(ts).contains_key(x) {
        let k = choose|k: int| 0 <= k < ts.len() && #[trigger] ts[k].2 == x && pb_to_first(ts)[x] == ts[k].0 && pb_to_second(ts)[x] == ts[k].1;
        lemma_sort_triples_agree(t1, t2, m1, m2, 0, k);
    }
    let ps = pullback_op_pairs(t1, t2, m1, m2);
    let ots = pullback_op_triples(t1, t2, m1, m2);
    lemma_projections_of(ots, x);
    if pb_to_first(ots).contains_key(x) {
        let k = choose|k: int| 0 <= k < ots.len() && #[trigger] ots[k].2 == x && pb_to_first(ots)[x] == ots[k].0 && pb_to_second(ots)[x] == ots[k].1;
        lemma_op_pairs_agree(t1, t2, m1, m2, ts, 0, k);
        assert(ots[k] == ps[k].1);
    }
}

} // verus!
