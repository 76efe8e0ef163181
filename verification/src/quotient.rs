//! Quotients of theories: identifying sorts or operations with one
//! another.
use vstd::prelude::*;
use vstd::string::*;

use crate::error::{GatError, SGatError};
use crate::alpha::{alpha_equiv_equation, alpha_equivalent_equation};
use crate::eq::{DirectedEquation, Equation, SDirectedEquation, SEquation, rename_ops_spec};
use crate::maps::{RenameMap, map_name};
use crate::morphism::apply_maps_spec;
use crate::op::{Implicit, Operation, SOperation};
use crate::sort::{SSort, SSortExpr, Sort, SortClosure, SortExpr, SortKind, SortParam, closure_view};
use crate::text::{closure_text, decimal, kind_text};
use crate::theory::{ConflictPolicy, STheory, Theory, first_named, op_names, sort_names};

verus! {

// ---------------------------------------------------------------------------
// The order on names
// ---------------------------------------------------------------------------

/// Lexicographic order on names by character code (the byte order of
/// their UTF-8 encodings).
pub open spec fn name_lt(a: Seq<char>, b: Seq<char>) -> bool
    decreases a.len(),
{
    if a.len() == 0 {
        b.len() > 0
    } else if b.len() == 0 {
        false
    } else if a[0] != b[0] {
        (a[0] as int) < (b[0] as int)
    } else {
        name_lt(a.drop_first(), b.drop_first())
    }
}

/// `a` comes no later than `b` in the order on names.
pub open spec fn name_le(a: Seq<char>, b: Seq<char>) -> bool {
    a == b || name_lt(a, b)
}

proof fn lemma_name_le_step(a: Seq<char>, b: Seq<char>)
    requires
        a.len() > 0,
        b.len() > 0,
        a[0] == b[0],
    ensures
        name_le(a, b) == name_le(a.drop_first(), b.drop_first()),
{
    if a.drop_first() == b.drop_first() {
        assert(a =~= seq![a[0]] + a.drop_first());
        assert(b =~= seq![b[0]] + b.drop_first());
    }
    if a == b {
        assert(a.drop_first() =~= b.drop_first());
    }
}

/// Whether `a` comes no later than `b` in the order on names.
pub fn name_le_exec(a: &str, b: &str) -> (r: bool)
    ensures
        r == name_le(a@, b@),
{
    let la = a.unicode_len();
    let lb = b.unicode_len();
    let mut i: usize = 0;
    proof {
        assert(a@.skip(0) =~= a@);
        assert(b@.skip(0) =~= b@);
    }
    while i < la && i < lb
        invariant
            la == a@.len(),
            lb == b@.len(),
            i <= la,
            i <= lb,
            name_le(a@, b@) == name_le(a@.skip(i as int), b@.skip(i as int)),
        decreases la - i,
    {
        let ca = a.get_char(i);
        let cb = b.get_char(i);
        let ghost sa = a@.skip(i as int);
        let ghost sb = b@.skip(i as int);
        proof {
            assert(sa[0] == ca);
            assert(sb[0] == cb);
            assert(sa.drop_first() =~= a@.skip(i + 1));
            assert(sb.drop_first() =~= b@.skip(i + 1));
        }
        if ca != cb {
            proof {
                assert(sa != sb);
            }
            return ca < cb;
        }
        proof {
            lemma_name_le_step(sa, sb);
        }
        i = i + 1;
    }
    proof {
        let sa = a@.skip(i as int);
        let sb = b@.skip(i as int);
        if sa.len() == 0 && sb.len() == 0 {
            assert(sa =~= sb);
        }
    }
    la <= lb
}


// ---------------------------------------------------------------------------
// Equivalence classes of names
// ---------------------------------------------------------------------------

/// The class label of `x`: the label at its first position in `names`, or
/// `x` itself when it is not listed.
#[verifier::opaque]
pub open spec fn label_of(names: Seq<Seq<char>>, labels: Seq<Seq<char>>, x: Seq<char>) -> Seq<char> {
    match first_named(names, x) {
        Some(i) => labels[i],
        None => x,
    }
}

/// Merge the classes of `a` and `b`: every name labelled with the later
/// of the two labels takes the earlier one.
pub open spec fn merge_labels(names: Seq<Seq<char>>, labels: Seq<Seq<char>>, a: Seq<char>, b: Seq<char>) -> Seq<Seq<char>> {
    let ra = label_of(names, labels, a);
    let rb = label_of(names, labels, b);
    let lo = if name_le(ra, rb) { ra } else { rb };
    let hi = if name_le(ra, rb) { rb } else { ra };
    Seq::new(labels.len(), |i: int| if labels[i] == hi { lo } else { labels[i] })
}

/// The class labels of `names` after merging the first `k` pairs, each
/// name starting in a class of its own labelled by itself.
pub open spec fn class_labels(names: Seq<Seq<char>>, pairs: Seq<(Seq<char>, Seq<char>)>, k: int) -> Seq<Seq<char>>
    decreases k,
{
    if k <= 0 {
        names
    } else {
        merge_labels(names, class_labels(names, pairs, k - 1), pairs[k - 1].0, pairs[k - 1].1)
    }
}

/// Equal names carry equal labels, and every label is a listed name.
#[verifier::opaque]
pub open spec fn labels_ok(names: Seq<Seq<char>>, labels: Seq<Seq<char>>) -> bool {
    &&& labels.len() == names.len()
    &&& forall|i: int, j: int| 0 <= i < names.len() && 0 <= j < names.len() && names[i] == names[j] ==> labels[i] == labels[j]
    &&& forall|i: int| 0 <= i < labels.len() ==> names.contains(#[trigger] labels[i])
}

/// The rename map of a labelling: each listed name whose label differs
/// from it, sent to its label.
pub open spec fn label_rename(names: Seq<Seq<char>>, labels: Seq<Seq<char>>) -> Map<Seq<char>, Seq<char>> {
    Map::new(
        |x: Seq<char>| names.contains(x) && label_of(names, labels, x) != x,
        |x: Seq<char>| label_of(names, labels, x),
    )
}

/// The views of a list of name pairs.
pub open spec fn pairs_view(v: Seq<(String, String)>) -> Seq<(Seq<char>, Seq<char>)> {
    Seq::new(v.len(), |i: int| (v[i].0@, v[i].1@))
}

proof fn lemma_label_of_index(names: Seq<Seq<char>>, labels: Seq<Seq<char>>, k: int)
    requires
        labels_ok(names, labels),
        0 <= k < names.len(),
    ensures
        label_of(names, labels, names[k]) == labels[k],
{
    reveal(labels_ok);
    reveal(label_of);
    crate::theory::lemma_first_named(names, names[k]);
}

proof fn lemma_merge_label(names: Seq<Seq<char>>, labels: Seq<Seq<char>>, a: Seq<char>, b: Seq<char>, x: Seq<char>)
    requires
        labels.len() == names.len(),
        names.contains(x),
    ensures
        ({
            let ra = label_of(names, labels, a);
            let rb = label_of(names, labels, b);
            let lo = if name_le(ra, rb) { ra } else { rb };
            let hi = if name_le(ra, rb) { rb } else { ra };
            label_of(names, merge_labels(names, labels, a, b), x) == if label_of(names, labels, x) == hi {
                lo
            } else {
                label_of(names, labels, x)
            }
        }),
{
    reveal(label_of);
    crate::theory::lemma_first_named(names, x);
}

proof fn lemma_merge_ok(names: Seq<Seq<char>>, labels: Seq<Seq<char>>, a: Seq<char>, b: Seq<char>)
    requires
        labels_ok(names, labels),
        names.contains(a),
        names.contains(b),
    ensures
        labels_ok(names, merge_labels(names, labels, a, b)),
        label_of(names, merge_labels(names, labels, a, b), a) == label_of(names, merge_labels(names, labels, a, b), b),
        forall|x: Seq<char>, y: Seq<char>|
            names.contains(x) && names.contains(y) && #[trigger] label_of(names, labels, x) == #[trigger] label_of(names, labels, y)
            ==> label_of(names, merge_labels(names, labels, a, b), x) == label_of(names, merge_labels(names, labels, a, b), y),
        forall|x: Seq<char>| names.contains(x) && name_le(label_of(names, labels, x), x) ==> #[trigger] name_le(label_of(names, merge_labels(names, labels, a, b), x), x),
{
    reveal(labels_ok);
    crate::theory::lemma_first_named(names, a);
    crate::theory::lemma_first_named(names, b);
    let m = merge_labels(names, labels, a, b);
    let ra = label_of(names, labels, a);
    let rb = label_of(names, labels, b);
    lemma_merge_label(names, labels, a, b, a);
    lemma_merge_label(names, labels, a, b, b);
    assert forall|x: Seq<char>, y: Seq<char>|
        names.contains(x) && names.contains(y) && #[trigger] label_of(names, labels, x) == #[trigger] label_of(names, labels, y)
        implies label_of(names, m, x) == label_of(names, m, y) by {
        lemma_merge_label(names, labels, a, b, x);
        lemma_merge_label(names, labels, a, b, y);
    }
    assert forall|x: Seq<char>| names.contains(x) && name_le(label_of(names, labels, x), x) implies #[trigger] name_le(label_of(names, m, x), x) by {
        lemma_merge_label(names, labels, a, b, x);
        if label_of(names, m, x) != label_of(names, labels, x) {
            lemma_name_le_total(ra, rb);
            if name_le(ra, rb) {
                lemma_name_le_trans(ra, rb, x);
            } else {
                lemma_name_le_trans(rb, ra, x);
            }
        }
    }
    lemma_merge_labels_ok(names, labels, a, b);
}

proof fn lemma_merge_labels_ok(names: Seq<Seq<char>>, labels: Seq<Seq<char>>, a: Seq<char>, b: Seq<char>)
    requires
        labels_ok(names, labels),
        names.contains(a),
        names.contains(b),
    ensures
        labels_ok(names, merge_labels(names, labels, a, b)),
{
    reveal(labels_ok);
    reveal(label_of);
    crate::theory::lemma_first_named(names, a);
    crate::theory::lemma_first_named(names, b);
    let m = merge_labels(names, labels, a, b);
    let ia = first_named(names, a).unwrap();
    let ib = first_named(names, b).unwrap();
    assert(names.contains(labels[ia]));
    assert(names.contains(labels[ib]));
    assert forall|i: int| 0 <= i < m.len() implies names.contains(#[trigger] m[i]) by {
        assert(names.contains(labels[i]));
    }
    assert forall|i: int, j: int| 0 <= i < names.len() && 0 <= j < names.len() && names[i] == names[j] implies m[i] == m[j] by {
        assert(labels[i] == labels[j]);
    }
}

/// The order on names is total.
pub proof fn lemma_name_le_total(a: Seq<char>, b: Seq<char>)
    ensures
        name_le(a, b) || name_le(b, a),
    decreases a.len(),
{
    if a.len() > 0 && b.len() > 0 && a[0] == b[0] {
        lemma_name_le_total(a.drop_first(), b.drop_first());
        lemma_name_le_step(a, b);
        lemma_name_le_step(b, a);
    } else if a.len() == 0 && b.len() == 0 {
        assert(a =~= b);
    } else if a.len() > 0 && b.len() > 0 {
        assert((a[0] as int) != (b[0] as int));
    }
}

/// The order on names is transitive.
pub proof fn lemma_name_le_trans(a: Seq<char>, b: Seq<char>, c: Seq<char>)
    requires
        name_le(a, b),
        name_le(b, c),
    ensures
        name_le(a, c),
    decreases a.len(),
{
    if a == b || b == c {
    } else if a.len() > 0 && b.len() > 0 && c.len() > 0 && a[0] == b[0] && b[0] == c[0] {
        lemma_name_le_step(a, b);
        lemma_name_le_step(b, c);
        lemma_name_le_step(a, c);
        lemma_name_le_trans(a.drop_first(), b.drop_first(), c.drop_first());
    }
}


/// Every name of every pair is listed.
pub open spec fn pairs_listed(names: Seq<Seq<char>>, pairs: Seq<(Seq<char>, Seq<char>)>) -> bool {
    forall|j: int| 0 <= j < pairs.len() ==> names.contains(#[trigger] pairs[j].0) && names.contains(pairs[j].1)
}

proof fn lemma_pair_listed(names: Seq<Seq<char>>, pairs: Seq<(Seq<char>, Seq<char>)>, j: int)
    requires
        pairs_listed(names, pairs),
        0 <= j < pairs.len(),
    ensures
        names.contains(pairs[j].0),
        names.contains(pairs[j].1),
{
    let p = pairs[j].0;
}

proof fn lemma_class_labels_ok(names: Seq<Seq<char>>, pairs: Seq<(Seq<char>, Seq<char>)>, k: int)
    requires
        0 <= k <= pairs.len(),
        pairs_listed(names, pairs),
    ensures
        labels_ok(names, class_labels(names, pairs, k)),
    decreases k,
{
    if k == 0 {
        reveal(labels_ok);
    } else {
        lemma_class_labels_ok(names, pairs, k - 1);
        lemma_pair_listed(names, pairs, k - 1);
        lemma_merge_labels_ok(names, class_labels(names, pairs, k - 1), pairs[k - 1].0, pairs[k - 1].1);
    }
}

proof fn lemma_class_len(names: Seq<Seq<char>>, pairs: Seq<(Seq<char>, Seq<char>)>, k: int)
    ensures
        class_labels(names, pairs, k).len() == names.len(),
    decreases k,
{
    if k > 0 {
        lemma_class_len(names, pairs, k - 1);
    }
}

/// After merging the first `k` pairs, each of them shares a label.
pub proof fn lemma_class_labels_merged(names: Seq<Seq<char>>, pairs: Seq<(Seq<char>, Seq<char>)>, k: int)
    requires
        0 <= k <= pairs.len(),
        pairs_listed(names, pairs),
    ensures
        forall|j: int| 0 <= j < k ==> label_of(names, class_labels(names, pairs, k), #[trigger] pairs[j].0)
            == label_of(names, class_labels(names, pairs, k), pairs[j].1),
    decreases k,
{
    if k > 0 {
        lemma_class_labels_merged(names, pairs, k - 1);
        lemma_class_labels_ok(names, pairs, k - 1);
        let prev = class_labels(names, pairs, k - 1);
        let a = pairs[k - 1].0;
        let b = pairs[k - 1].1;
        lemma_pair_listed(names, pairs, k - 1);
        lemma_class_len(names, pairs, k - 1);
        let cur = class_labels(names, pairs, k);
        assert forall|j: int| 0 <= j < k implies label_of(names, cur, #[trigger] pairs[j].0) == label_of(names, cur, pairs[j].1) by {
            lemma_pair_listed(names, pairs, j);
            lemma_merge_label(names, prev, a, b, pairs[j].0);
            lemma_merge_label(names, prev, a, b, pairs[j].1);
            if j < k - 1 {
                assert(label_of(names, prev, pairs[j].0) == label_of(names, prev, pairs[j].1));
            }
        }
    }
}

/// After merging the first `k` pairs, no name's label comes after it.
pub proof fn lemma_class_labels_le(names: Seq<Seq<char>>, pairs: Seq<(Seq<char>, Seq<char>)>, k: int)
    requires
        0 <= k <= pairs.len(),
        pairs_listed(names, pairs),
    ensures
        forall|x: Seq<char>| names.contains(x) ==> name_le(#[trigger] label_of(names, class_labels(names, pairs, k), x), x),
    decreases k,
{
    if k == 0 {
        reveal(label_of);
        assert forall|x: Seq<char>| names.contains(x) implies name_le(#[trigger] label_of(names, class_labels(names, pairs, k), x), x) by {
            crate::theory::lemma_first_named(names, x);
        }
    } else {
        lemma_class_labels_le(names, pairs, k - 1);
        lemma_class_labels_ok(names, pairs, k - 1);
        let prev = class_labels(names, pairs, k - 1);
        let a = pairs[k - 1].0;
        let b = pairs[k - 1].1;
        lemma_pair_listed(names, pairs, k - 1);
        lemma_merge_ok(names, prev, a, b);
        let cur = class_labels(names, pairs, k);
        assert forall|x: Seq<char>| names.contains(x) implies name_le(#[trigger] label_of(names, cur, x), x) by {
            assert(name_le(label_of(names, prev, x), x));
        }
    }
}

fn first_index(names: &Vec<String>, x: &str) -> (r: usize)
    requires
        crate::term::names_view(names@).contains(x@),
    ensures
        first_named(crate::term::names_view(names@), x@) == Some(r as int),
        r < names@.len(),
{
    let ghost nv = crate::term::names_view(names@);
    proof {
        crate::theory::lemma_first_named(nv, x@);
    }
    let mut i: usize = 0;
    while i < names.len()
        invariant
            nv == crate::term::names_view(names@),
            nv.contains(x@),
            first_named(nv, x@) is Some,
            i <= names@.len(),
            forall|j: int| 0 <= j < i ==> nv[j] != x@,
        decreases names@.len() - i,
    {
        if crate::maps::str_eq(names[i].as_str(), x) {
            proof {
                let f = first_named(nv, x@).unwrap();
                let c = choose|c: int| 0 <= c < nv.len() && nv[c] == x@ && forall|j: int| 0 <= j < c ==> nv[j] != x@;
                assert(nv[i as int] == x@);
                if c < i {
                    assert(nv[c] != x@);
                }
                if c > i {
                    assert(nv[i as int] != x@);
                }
            }
            return i;
        }
        i = i + 1;
    }
    proof {
        let f = first_named(nv, x@).unwrap();
        crate::theory::lemma_first_named(nv, x@);
        assert(nv[f] == x@);
    }
    0
}

/// The label of `x` in the labelling `labels` of `names`.
fn find_label(names: &Vec<String>, labels: &Vec<String>, x: &str) -> (r: String)
    requires
        crate::term::names_view(names@).contains(x@),
        labels@.len() == names@.len(),
    ensures
        r@ == label_of(crate::term::names_view(names@), crate::term::names_view(labels@), x@),
{
    let i = first_index(names, x);
    proof {
        reveal(label_of);
    }
    labels[i].clone()
}

/// Merge the classes of `a` and `b`.
fn union_labels(names: &Vec<String>, labels: &mut Vec<String>, a: &str, b: &str)
    requires
        crate::term::names_view(names@).contains(a@),
        crate::term::names_view(names@).contains(b@),
        old(labels)@.len() == names@.len(),
    ensures
        final(labels)@.len() == old(labels)@.len(),
        crate::term::names_view(final(labels)@) == merge_labels(
            crate::term::names_view(names@),
            crate::term::names_view(old(labels)@),
            a@,
            b@,
        ),
{
    let ghost nv = crate::term::names_view(names@);
    let ghost lv = crate::term::names_view(labels@);
    let ra = find_label(names, labels, a);
    let rb = find_label(names, labels, b);
    let (lo, hi) = if name_le_exec(ra.as_str(), rb.as_str()) {
        (ra, rb)
    } else {
        (rb, ra)
    };
    let ghost target = merge_labels(nv, lv, a@, b@);
    let mut i: usize = 0;
    while i < labels.len()
        invariant
            labels@.len() == nv.len(),
            target.len() == nv.len(),
            i <= labels@.len(),
            forall|j: int| 0 <= j < i ==> #[trigger] labels@[j]@ == target[j],
            forall|j: int| i <= j < labels@.len() ==> #[trigger] labels@[j]@ == lv[j],
            target == merge_labels(nv, lv, a@, b@),
            lo@ == (if name_le(label_of(nv, lv, a@), label_of(nv, lv, b@)) { label_of(nv, lv, a@) } else { label_of(nv, lv, b@) }),
            hi@ == (if name_le(label_of(nv, lv, a@), label_of(nv, lv, b@)) { label_of(nv, lv, b@) } else { label_of(nv, lv, a@) }),
        decreases labels@.len() - i,
    {
        if labels[i] == hi {
            labels.set(i, lo.clone());
        }
        i = i + 1;
    }
    proof {
        assert(crate::term::names_view(labels@) =~= target);
    }
}

/// The rename map of a labelling.
fn rename_of_labels(names: &Vec<String>, labels: &Vec<String>) -> (r: RenameMap)
    requires
        labels@.len() == names@.len(),
        labels_ok(crate::term::names_view(names@), crate::term::names_view(labels@)),
    ensures
        r@ == label_rename(crate::term::names_view(names@), crate::term::names_view(labels@)),
{
    let ghost nv = crate::term::names_view(names@);
    let ghost lv = crate::term::names_view(labels@);
    let mut m = RenameMap::new();
    let mut i: usize = 0;
    while i < names.len()
        invariant
            nv == crate::term::names_view(names@),
            lv == crate::term::names_view(labels@),
            labels_ok(nv, lv),
            labels@.len() == names@.len(),
            i <= names@.len(),
            forall|x: Seq<char>| #[trigger] m@.contains_key(x) == (exists|q: int| 0 <= q < i && nv[q] == x && lv[q] != x),
            forall|x: Seq<char>| #[trigger] m@.contains_key(x) ==> m@[x] == label_of(nv, lv, x),
        decreases names@.len() - i,
    {
        proof {
            lemma_label_of_index(nv, lv, i as int);
        }
        if !(labels[i] == names[i]) {
            m.insert(names[i].clone(), labels[i].clone());
        }
        proof {
            assert forall|x: Seq<char>| #[trigger] m@.contains_key(x) == (exists|q: int| 0 <= q < i + 1 && nv[q] == x && lv[q] != x) by {
                if exists|q: int| 0 <= q < i + 1 && nv[q] == x && lv[q] != x {
                    let q = choose|q: int| 0 <= q < i + 1 && nv[q] == x && lv[q] != x;
                    if q < i {
                        assert(exists|q: int| 0 <= q < i && nv[q] == x && lv[q] != x);
                    }
                }
            }
        }
        i = i + 1;
    }
    proof {
        assert forall|x: Seq<char>| #[trigger] m@.contains_key(x) == label_rename(nv, lv).contains_key(x) by {
            if m@.contains_key(x) {
                let q = choose|q: int| 0 <= q < nv.len() && nv[q] == x && lv[q] != x;
                lemma_label_of_index(nv, lv, q);
                assert(nv.contains(x));
            }
            if label_rename(nv, lv).contains_key(x) {
                crate::theory::lemma_first_named(nv, x);
                let q = first_named(nv, x).unwrap();
                lemma_label_of_index(nv, lv, q);
            }
        }
        assert(m@ =~= label_rename(nv, lv));
    }
    m
}


// ---------------------------------------------------------------------------
// Classifying and checking identifications
// ---------------------------------------------------------------------------

/// Split the identifications from position `i` on into sort pairs and
/// operation pairs (after `sp` and `op`): a pair of sort names is a sort
/// pair, else a pair of operation names is an operation pair, else the
/// first other pair is an error.
pub open spec fn classify_from(
    snames: Seq<Seq<char>>,
    onames: Seq<Seq<char>>,
    ids: Seq<(Seq<char>, Seq<char>)>,
    i: int,
    sp: Seq<(Seq<char>, Seq<char>)>,
    op: Seq<(Seq<char>, Seq<char>)>,
) -> Result<(Seq<(Seq<char>, Seq<char>)>, Seq<(Seq<char>, Seq<char>)>), SGatError>
    decreases (if 0 <= i < ids.len() { ids.len() - i } else { 0 }) as nat,
{
    if 0 <= i < ids.len() {
        let a = ids[i].0;
        let b = ids[i].1;
        if snames.contains(a) && snames.contains(b) {
            classify_from(snames, onames, ids, i + 1, sp.push((a, b)), op)
        } else if onames.contains(a) && onames.contains(b) {
            classify_from(snames, onames, ids, i + 1, sp, op.push((a, b)))
        } else {
            Err(SGatError::QuotientIncompatible {
                name_a: a,
                name_b: b,
                detail: "names are not both sorts or both operations in the theory"@,
            })
        }
    } else {
        Ok((sp, op))
    }
}

/// The error for a sort named `m` against its class label `rep`: the two
/// first declarations must agree on arity, kind and closure.
#[verifier::opaque]
pub open spec fn sort_pair_error(sorts: Seq<Sort>, rep: Seq<char>, m: Seq<char>) -> Option<SGatError> {
    let names = sort_names(sorts);
    match first_named(names, rep) {
        None => Some(SGatError::SortNotFound(rep)),
        Some(i) => match first_named(names, m) {
            None => Some(SGatError::SortNotFound(m)),
            Some(j) => {
                let rs = sorts[i];
                let ms = sorts[j];
                if rs.params@.len() != ms.params@.len() {
                    Some(SGatError::QuotientIncompatible {
                        name_a: rep,
                        name_b: m,
                        detail: "sort arities differ ("@ + decimal(rs.params@.len()) + " vs "@ + decimal(ms.params@.len()) + ")"@,
                    })
                } else if rs.kind != ms.kind {
                    Some(SGatError::QuotientIncompatible {
                        name_a: rep,
                        name_b: m,
                        detail: "sort kinds differ ("@ + kind_text(rs.kind) + " vs "@ + kind_text(ms.kind) + ")"@,
                    })
                } else if closure_view(rs.closure) != closure_view(ms.closure) {
                    Some(SGatError::QuotientIncompatible {
                        name_a: rep,
                        name_b: m,
                        detail: "sort closures differ ("@ + closure_text(closure_view(rs.closure)) + " vs "@
                            + closure_text(closure_view(ms.closure)) + ")"@,
                    })
                } else {
                    None
                }
            },
        },
    }
}

/// The error for the sort at position `k` against its class label, if
/// any.
pub open spec fn sort_member_error(sorts: Seq<Sort>, labels: Seq<Seq<char>>, k: int) -> Option<SGatError> {
    if sort_names(sorts)[k] == labels[k] {
        None
    } else {
        sort_pair_error(sorts, labels[k], sort_names(sorts)[k])
    }
}

/// The first sort error from position `k` on.
pub open spec fn sort_check_from(sorts: Seq<Sort>, labels: Seq<Seq<char>>, k: int) -> Option<SGatError>
    decreases (if 0 <= k < sorts.len() { sorts.len() - k } else { 0 }) as nat,
{
    if 0 <= k < sorts.len() {
        match sort_member_error(sorts, labels, k) {
            Some(e) => Some(e),
            None => sort_check_from(sorts, labels, k + 1),
        }
    } else {
        None
    }
}

/// The signature of an operation in the quotient: its input sorts and
/// its output sort, renamed.
pub open spec fn quotient_signature(
    o: SOperation,
    sm: Map<Seq<char>, Seq<char>>,
    om: Map<Seq<char>, Seq<char>>,
) -> (Seq<SSortExpr>, SSortExpr) {
    (Seq::new(o.inputs.len(), |i: int| apply_maps_spec(o.inputs[i].1, sm, om)), apply_maps_spec(o.output, sm, om))
}

/// The error for an operation named `m` against its class label `rep`:
/// the two first declarations must have the same signature in the
/// quotient.
#[verifier::opaque]
pub open spec fn op_pair_error(
    ops: Seq<Operation>,
    sm: Map<Seq<char>, Seq<char>>,
    om: Map<Seq<char>, Seq<char>>,
    rep: Seq<char>,
    m: Seq<char>,
) -> Option<SGatError> {
    let names = op_names(ops);
    match first_named(names, rep) {
        None => Some(SGatError::OpNotFound(rep)),
        Some(i) => match first_named(names, m) {
            None => Some(SGatError::OpNotFound(m)),
            Some(j) => if quotient_signature(ops[i]@, sm, om) != quotient_signature(ops[j]@, sm, om) {
                Some(SGatError::QuotientIncompatible {
                    name_a: rep,
                    name_b: m,
                    detail: "operation signatures differ in the quotient"@,
                })
            } else {
                None
            },
        },
    }
}

/// The error for the operation at position `k` against its class label,
/// if any.
pub open spec fn op_member_error(
    ops: Seq<Operation>,
    labels: Seq<Seq<char>>,
    sm: Map<Seq<char>, Seq<char>>,
    om: Map<Seq<char>, Seq<char>>,
    k: int,
) -> Option<SGatError> {
    if op_names(ops)[k] == labels[k] {
        None
    } else {
        op_pair_error(ops, sm, om, labels[k], op_names(ops)[k])
    }
}

/// The first operation error from position `k` on.
pub open spec fn op_check_from(
    ops: Seq<Operation>,
    labels: Seq<Seq<char>>,
    sm: Map<Seq<char>, Seq<char>>,
    om: Map<Seq<char>, Seq<char>>,
    k: int,
) -> Option<SGatError>
    decreases (if 0 <= k < ops.len() { ops.len() - k } else { 0 }) as nat,
{
    if 0 <= k < ops.len() {
        match op_member_error(ops, labels, sm, om, k) {
            Some(e) => Some(e),
            None => op_check_from(ops, labels, sm, om, k + 1),
        }
    } else {
        None
    }
}

/// The sort and operation rename maps of a quotient, or the first error:
/// identifications are classified; sort classes are checked member by
/// member (in declaration order); then operation classes, with both
/// renamings applied to the signatures.
pub open spec fn quotient_maps(theory: Theory, ids: Seq<(Seq<char>, Seq<char>)>) -> Result<
    (Map<Seq<char>, Seq<char>>, Map<Seq<char>, Seq<char>>),
    SGatError,
> {
    let snames = sort_names(theory.sorts@);
    let onames = op_names(theory.ops@);
    match classify_from(snames, onames, ids, 0, Seq::empty(), Seq::empty()) {
        Err(e) => Err(e),
        Ok((sp, op)) => {
            let sl = class_labels(snames, sp, sp.len() as int);
            match sort_check_from(theory.sorts@, sl, 0) {
                Some(e) => Err(e),
                None => {
                    let sm = label_rename(snames, sl);
                    let ol = class_labels(onames, op, op.len() as int);
                    let om = label_rename(onames, ol);
                    match op_check_from(theory.ops@, ol, sm, om, 0) {
                        Some(e) => Err(e),
                        None => Ok((sm, om)),
                    }
                },
            }
        },
    }
}


fn sort_name_list(theory: &Theory) -> (r: Vec<String>)
    ensures
        crate::term::names_view(r@) == sort_names(theory.sorts@),
{
    let mut r: Vec<String> = Vec::new();
    let mut i: usize = 0;
    while i < theory.sorts.len()
        invariant
            i <= theory.sorts@.len(),
            r@.len() == i,
            forall|k: int| 0 <= k < i ==> #[trigger] r@[k]@ == theory.sorts@[k].name@,
        decreases theory.sorts@.len() - i,
    {
        r.push(theory.sorts[i].name.clone());
        i = i + 1;
    }
    assert(crate::term::names_view(r@) =~= sort_names(theory.sorts@));
    r
}

fn op_name_list(theory: &Theory) -> (r: Vec<String>)
    ensures
        crate::term::names_view(r@) == op_names(theory.ops@),
{
    let mut r: Vec<String> = Vec::new();
    let mut i: usize = 0;
    while i < theory.ops.len()
        invariant
            i <= theory.ops@.len(),
            r@.len() == i,
            forall|k: int| 0 <= k < i ==> #[trigger] r@[k]@ == theory.ops@[k].name@,
        decreases theory.ops@.len() - i,
    {
        r.push(theory.ops[i].name.clone());
        i = i + 1;
    }
    assert(crate::term::names_view(r@) =~= op_names(theory.ops@));
    r
}

proof fn lemma_push_listed(names: Seq<Seq<char>>, ps: Seq<(Seq<char>, Seq<char>)>, a: Seq<char>, b: Seq<char>)
    requires
        pairs_listed(names, ps),
        names.contains(a),
        names.contains(b),
    ensures
        pairs_listed(names, ps.push((a, b))),
{
    let q = ps.push((a, b));
    assert forall|j: int| 0 <= j < q.len() implies names.contains(#[trigger] q[j].0) && names.contains(q[j].1) by {
        if j < ps.len() {
            lemma_pair_listed(names, ps, j);
        }
    }
}

fn not_both_error(a: &String, b: &String) -> (e: GatError)
    ensures
        e@ == (SGatError::QuotientIncompatible {
            name_a: a@,
            name_b: b@,
            detail: "names are not both sorts or both operations in the theory"@,
        }),
{
    proof {
        reveal_strlit("names are not both sorts or both operations in the theory");
    }
    GatError::QuotientIncompatible {
        name_a: a.clone(),
        name_b: b.clone(),
        detail: "names are not both sorts or both operations in the theory".to_owned(),
    }
}

/// 0 for two sort names, else 1 for two operation names, else 2.
fn pair_kind(theory: &Theory, a: &String, b: &String) -> (r: u8)
    ensures
        (r == 0) == (sort_names(theory.sorts@).contains(a@) && sort_names(theory.sorts@).contains(b@)),
        (r == 1) == (!(sort_names(theory.sorts@).contains(a@) && sort_names(theory.sorts@).contains(b@))
            && op_names(theory.ops@).contains(a@) && op_names(theory.ops@).contains(b@)),
        r <= 2,
{
    proof {
        crate::theory::lemma_first_named(sort_names(theory.sorts@), a@);
        crate::theory::lemma_first_named(sort_names(theory.sorts@), b@);
        crate::theory::lemma_first_named(op_names(theory.ops@), a@);
        crate::theory::lemma_first_named(op_names(theory.ops@), b@);
    }
    if theory.has_sort(a.as_str()) && theory.has_sort(b.as_str()) {
        0
    } else if theory.has_op(a.as_str()) && theory.has_op(b.as_str()) {
        1
    } else {
        2
    }
}

/// Split the identifications into sort pairs and operation pairs.
fn classify(theory: &Theory, ids: &[(String, String)]) -> (r: Result<(Vec<(String, String)>, Vec<(String, String)>), GatError>)
    ensures
        match r {
            Ok((sp, op)) => {
                &&& classify_from(
                    sort_names(theory.sorts@),
                    op_names(theory.ops@),
                    pairs_view(ids@),
                    0,
                    Seq::empty(),
                    Seq::empty(),
                ) == Ok::<(Seq<(Seq<char>, Seq<char>)>, Seq<(Seq<char>, Seq<char>)>), SGatError>((pairs_view(sp@), pairs_view(op@)))
                &&& pairs_listed(sort_names(theory.sorts@), pairs_view(sp@))
                &&& pairs_listed(op_names(theory.ops@), pairs_view(op@))
            },
            Err(e) => classify_from(
                sort_names(theory.sorts@),
                op_names(theory.ops@),
                pairs_view(ids@),
                0,
                Seq::empty(),
                Seq::empty(),
            ) == Err::<(Seq<(Seq<char>, Seq<char>)>, Seq<(Seq<char>, Seq<char>)>), SGatError>(e@),
        },
{
    let ghost sn = sort_names(theory.sorts@);
    let ghost on = op_names(theory.ops@);
    let ghost iv = pairs_view(ids@);
    let ghost total = classify_from(sn, on, iv, 0, Seq::empty(), Seq::empty());
    let mut sp: Vec<(String, String)> = Vec::new();
    let mut op: Vec<(String, String)> = Vec::new();
    proof {
        assert(pairs_view(sp@) =~= Seq::<(Seq<char>, Seq<char>)>::empty());
        assert(pairs_view(op@) =~= Seq::<(Seq<char>, Seq<char>)>::empty());
    }
    let mut i: usize = 0;
    while i < ids.len()
        invariant
            sn == sort_names(theory.sorts@),
            on == op_names(theory.ops@),
            iv == pairs_view(ids@),
            total == classify_from(sn, on, iv, 0, Seq::empty(), Seq::empty()),
            i <= ids@.len(),
            classify_from(sn, on, iv, i as int, pairs_view(sp@), pairs_view(op@)) == total,
            pairs_listed(sn, pairs_view(sp@)),
            pairs_listed(on, pairs_view(op@)),
        decreases ids@.len() - i,
    {
        let a = &ids[i].0;
        let b = &ids[i].1;
        proof {
            assert(iv[i as int] == (a@, b@));
        }
        let kind = pair_kind(theory, a, b);
        if kind == 0 {
            let ghost before = sp@;
            sp.push((a.clone(), b.clone()));
            proof {
                assert(pairs_view(sp@) =~= pairs_view(before).push((a@, b@)));
                lemma_push_listed(sn, pairs_view(before), a@, b@);
            }
        } else if kind == 1 {
            let ghost before = op@;
            op.push((a.clone(), b.clone()));
            proof {
                assert(pairs_view(op@) =~= pairs_view(before).push((a@, b@)));
                lemma_push_listed(on, pairs_view(before), a@, b@);
            }
        } else {
            return Err(not_both_error(a, b));
        }
        i = i + 1;
    }
    Ok((sp, op))
}

/// Equality of closures by their models.
fn closure_eq(a: &SortClosure, b: &SortClosure) -> (r: bool)
    ensures
        r == (closure_view(*a) == closure_view(*b)),
{
    match (a, b) {
        (SortClosure::Open, SortClosure::Open) => true,
        (SortClosure::Closed(x), SortClosure::Closed(y)) => {
            let ghost xv = Seq::new(x@.len(), |i: int| x@[i]@);
            let ghost yv = Seq::new(y@.len(), |i: int| y@[i]@);
            if x.len() != y.len() {
                assert(xv.len() != yv.len());
                return false;
            }
            let mut i: usize = 0;
            while i < x.len()
                invariant
                    xv == Seq::new(x@.len(), |i: int| x@[i]@),
                    yv == Seq::new(y@.len(), |i: int| y@[i]@),
                    closure_view(*a) == Some(xv),
                    closure_view(*b) == Some(yv),
                    x@.len() == y@.len(),
                    i <= x@.len(),
                    forall|k: int| 0 <= k < i ==> #[trigger] x@[k]@ == y@[k]@,
                decreases x@.len() - i,
            {
                if !(x[i] == y[i]) {
                    assert(xv[i as int] != yv[i as int]);
                    return false;
                }
                i = i + 1;
            }
            assert(xv =~= yv);
            true
        },
        _ => false,
    }
}

/// `prefix`, the two texts separated by ` vs `, and a closing bracket.
fn versus_text(prefix: &str, a: &str, b: &str) -> (r: String)
    ensures
        r@ == prefix@ + a@ + " vs "@ + b@ + ")"@,
{
    let mut d = String::new();
    d.append(prefix);
    d.append(a);
    d.append(" vs ");
    d.append(b);
    d.append(")");
    assert(d@ =~= prefix@ + a@ + " vs "@ + b@ + ")"@);
    d
}

fn check_sort_pair(theory: &Theory, rep: &String, m: &String) -> (r: Result<(), GatError>)
    ensures
        match r {
            Ok(()) => sort_pair_error(theory.sorts@, rep@, m@) is None,
            Err(e) => sort_pair_error(theory.sorts@, rep@, m@) == Some(e@),
        },
{
    let ghost names = sort_names(theory.sorts@);
    let rep_sort = match theory.find_sort(rep.as_str()) {
        Some(s) => s,
        None => {
            proof {
                reveal(sort_pair_error);
            }
            return Err(GatError::SortNotFound(rep.clone()));
        },
    };
    let member_sort = match theory.find_sort(m.as_str()) {
        Some(s) => s,
        None => {
            proof {
                reveal(sort_pair_error);
            }
            return Err(GatError::SortNotFound(m.clone()));
        },
    };
    let ghost i = first_named(names, rep@).unwrap();
    let ghost j = first_named(names, m@).unwrap();
    let ra = rep_sort.arity();
    let ma = member_sort.arity();
    if ra != ma {
        let e = arity_error(rep, m, ra, ma);
        proof {
            lemma_sort_pair_arity(theory.sorts@, rep@, m@, i, j);
        }
        return Err(e);
    }
    if rep_sort.kind != member_sort.kind {
        let e = kind_error(rep, m, rep_sort.kind, member_sort.kind);
        proof {
            lemma_sort_pair_kind(theory.sorts@, rep@, m@, i, j);
        }
        return Err(e);
    }
    if !closure_eq(&rep_sort.closure, &member_sort.closure) {
        let e = closure_error(rep, m, &rep_sort.closure, &member_sort.closure);
        proof {
            lemma_sort_pair_closure(theory.sorts@, rep@, m@, i, j);
        }
        return Err(e);
    }
    proof {
        lemma_sort_pair_none(theory.sorts@, rep@, m@, i, j);
    }
    Ok(())
}

/// Check every sort against the first declaration of its class label.
fn check_sort_classes(theory: &Theory, labels: &Vec<String>) -> (r: Result<(), GatError>)
    requires
        labels@.len() == theory.sorts@.len(),
    ensures
        match r {
            Ok(()) => sort_check_from(theory.sorts@, crate::term::names_view(labels@), 0) is None,
            Err(e) => sort_check_from(theory.sorts@, crate::term::names_view(labels@), 0) == Some(e@),
        },
{
    let ghost lv = crate::term::names_view(labels@);
    let mut k: usize = 0;
    while k < theory.sorts.len()
        invariant
            lv == crate::term::names_view(labels@),
            labels@.len() == theory.sorts@.len(),
            k <= theory.sorts@.len(),
            sort_check_from(theory.sorts@, lv, 0) == sort_check_from(theory.sorts@, lv, k as int),
        decreases theory.sorts@.len() - k,
    {
        let m = &theory.sorts[k].name;
        let rep = &labels[k];
        proof {
            assert(sort_names(theory.sorts@)[k as int] == m@);
            assert(lv[k as int] == rep@);
        }
        if !(*m == *rep) {
            match check_sort_pair(theory, rep, m) {
                Ok(()) => {},
                Err(e) => {
                    return Err(e);
                },
            }
        }
        k = k + 1;
    }
    Ok(())
}

/// The signature of an operation in the quotient.
fn quotient_sig(o: &Operation, sm: &RenameMap, om: &RenameMap) -> (r: (Vec<SortExpr>, SortExpr))
    ensures
        Seq::new(r.0@.len(), |i: int| r.0@[i]@) == quotient_signature(o@, sm@, om@).0,
        r.1@ == quotient_signature(o@, sm@, om@).1,
{
    let mut ins: Vec<SortExpr> = Vec::new();
    let mut i: usize = 0;
    while i < o.inputs.len()
        invariant
            i <= o.inputs@.len(),
            ins@.len() == i,
            forall|k: int| 0 <= k < i ==> #[trigger] ins@[k]@ == apply_maps_spec(o@.inputs[k].1, sm@, om@),
        decreases o.inputs@.len() - i,
    {
        let e = o.inputs[i].1.apply_maps(sm, om);
        proof {
            assert(e@ =~= apply_maps_spec(o@.inputs[i as int].1, sm@, om@));
        }
        ins.push(e);
        i = i + 1;
    }
    let out = o.output.apply_maps(sm, om);
    proof {
        assert(out@ =~= apply_maps_spec(o@.output, sm@, om@));
        assert(Seq::new(ins@.len(), |i: int| ins@[i]@) =~= quotient_signature(o@, sm@, om@).0);
    }
    (ins, out)
}

/// Equality of two quotient signatures.
fn sig_eq(a: &(Vec<SortExpr>, SortExpr), b: &(Vec<SortExpr>, SortExpr)) -> (r: bool)
    ensures
        r == (Seq::new(a.0@.len(), |i: int| a.0@[i]@) == Seq::new(b.0@.len(), |i: int| b.0@[i]@) && a.1@ == b.1@),
{
    let ghost av = Seq::new(a.0@.len(), |i: int| a.0@[i]@);
    let ghost bv = Seq::new(b.0@.len(), |i: int| b.0@[i]@);
    if a.0.len() != b.0.len() {
        assert(av.len() != bv.len());
        return false;
    }
    let mut i: usize = 0;
    while i < a.0.len()
        invariant
            av == Seq::new(a.0@.len(), |i: int| a.0@[i]@),
            bv == Seq::new(b.0@.len(), |i: int| b.0@[i]@),
            a.0@.len() == b.0@.len(),
            i <= a.0@.len(),
            forall|k: int| 0 <= k < i ==> #[trigger] a.0@[k]@ == b.0@[k]@,
        decreases a.0@.len() - i,
    {
        if !a.0[i].alpha_eq(&b.0[i]) {
            assert(av[i as int] != bv[i as int]);
            return false;
        }
        i = i + 1;
    }
    assert(av =~= bv);
    a.1.alpha_eq(&b.1)
}

fn check_op_pair(theory: &Theory, sm: &RenameMap, om: &RenameMap, rep: &String, m: &String) -> (r: Result<(), GatError>)
    ensures
        match r {
            Ok(()) => op_pair_error(theory.ops@, sm@, om@, rep@, m@) is None,
            Err(e) => op_pair_error(theory.ops@, sm@, om@, rep@, m@) == Some(e@),
        },
{
    let ghost names = op_names(theory.ops@);
    let rep_op = match theory.find_op(rep.as_str()) {
        Some(o) => o,
        None => {
            proof {
                reveal(op_pair_error);
            }
            return Err(GatError::OpNotFound(rep.clone()));
        },
    };
    let member_op = match theory.find_op(m.as_str()) {
        Some(o) => o,
        None => {
            proof {
                reveal(op_pair_error);
            }
            return Err(GatError::OpNotFound(m.clone()));
        },
    };
    let ghost i = first_named(names, rep@).unwrap();
    let ghost j = first_named(names, m@).unwrap();
    let rs = quotient_sig(rep_op, sm, om);
    let ms = quotient_sig(member_op, sm, om);
    let same = sig_eq(&rs, &ms);
    proof {
        assert(same == (quotient_signature(rep_op@, sm@, om@) == quotient_signature(member_op@, sm@, om@)));
        lemma_op_pair(theory.ops@, sm@, om@, rep@, m@, i, j);
    }
    if !same {
        return Err(sig_error(rep, m));
    }
    Ok(())
}

proof fn lemma_op_pair(
    ops: Seq<Operation>,
    sm: Map<Seq<char>, Seq<char>>,
    om: Map<Seq<char>, Seq<char>>,
    rep: Seq<char>,
    m: Seq<char>,
    i: int,
    j: int,
)
    requires
        first_named(op_names(ops), rep) == Some(i),
        first_named(op_names(ops), m) == Some(j),
    ensures
        op_pair_error(ops, sm, om, rep, m) == if quotient_signature(ops[i]@, sm, om) != quotient_signature(ops[j]@, sm, om) {
            Some(SGatError::QuotientIncompatible {
                name_a: rep,
                name_b: m,
                detail: "operation signatures differ in the quotient"@,
            })
        } else {
            None
        },
{
    reveal(op_pair_error);
}

fn sig_error(rep: &String, m: &String) -> (e: GatError)
    ensures
        e@ == (SGatError::QuotientIncompatible {
            name_a: rep@,
            name_b: m@,
            detail: "operation signatures differ in the quotient"@,
        }),
{
    proof {
        reveal_strlit("operation signatures differ in the quotient");
    }
    GatError::QuotientIncompatible {
        name_a: rep.clone(),
        name_b: m.clone(),
        detail: "operation signatures differ in the quotient".to_owned(),
    }
}

/// Check every operation against the first declaration of its class
/// label, comparing signatures in the quotient.
fn check_op_classes(theory: &Theory, labels: &Vec<String>, sm: &RenameMap, om: &RenameMap) -> (r: Result<(), GatError>)
    requires
        labels@.len() == theory.ops@.len(),
    ensures
        match r {
            Ok(()) => op_check_from(theory.ops@, crate::term::names_view(labels@), sm@, om@, 0) is None,
            Err(e) => op_check_from(theory.ops@, crate::term::names_view(labels@), sm@, om@, 0) == Some(e@),
        },
{
    let ghost lv = crate::term::names_view(labels@);
    let mut k: usize = 0;
    while k < theory.ops.len()
        invariant
            lv == crate::term::names_view(labels@),
            labels@.len() == theory.ops@.len(),
            k <= theory.ops@.len(),
            op_check_from(theory.ops@, lv, sm@, om@, 0) == op_check_from(theory.ops@, lv, sm@, om@, k as int),
        decreases theory.ops@.len() - k,
    {
        let m = &theory.ops[k].name;
        let rep = &labels[k];
        proof {
            assert(op_names(theory.ops@)[k as int] == m@);
            assert(lv[k as int] == rep@);
        }
        if !(*m == *rep) {
            match check_op_pair(theory, sm, om, rep, m) {
                Ok(()) => {},
                Err(e) => {
                    return Err(e);
                },
            }
        }
        k = k + 1;
    }
    Ok(())
}

/// Classify the identifications, merge the classes, check them, and
/// return the sort and operation rename maps.
fn build_rename_maps(theory: &Theory, ids: &[(String, String)]) -> (r: Result<(RenameMap, RenameMap), GatError>)
    ensures
        match r {
            Ok((sm, om)) => quotient_maps(*theory, pairs_view(ids@)) == Ok::<
                (Map<Seq<char>, Seq<char>>, Map<Seq<char>, Seq<char>>),
                SGatError,
            >((sm@, om@)),
            Err(e) => quotient_maps(*theory, pairs_view(ids@)) == Err::<
                (Map<Seq<char>, Seq<char>>, Map<Seq<char>, Seq<char>>),
                SGatError,
            >(e@),
        },
{
    let (sp, op) = match classify(theory, ids) {
        Ok(x) => x,
        Err(e) => {
            return Err(e);
        },
    };
    let ghost spv = pairs_view(sp@);
    let ghost opv = pairs_view(op@);
    let snames = sort_name_list(theory);
    let ghost sn = crate::term::names_view(snames@);
    let mut slabels = sort_name_list(theory);
    let mut i: usize = 0;
    while i < sp.len()
        invariant
            spv == pairs_view(sp@),
            sn == crate::term::names_view(snames@),
            sn == sort_names(theory.sorts@),
            pairs_listed(sn, spv),
            slabels@.len() == snames@.len(),
            i <= sp@.len(),
            crate::term::names_view(slabels@) == class_labels(sn, spv, i as int),
        decreases sp@.len() - i,
    {
        proof {
            lemma_pair_listed(sn, spv, i as int);
            assert(spv[i as int] == (sp@[i as int].0@, sp@[i as int].1@));
        }
        union_labels(&snames, &mut slabels, sp[i].0.as_str(), sp[i].1.as_str());
        i = i + 1;
    }
    proof {
        assert(sort_names(theory.sorts@).len() == theory.sorts@.len());
    }
    match check_sort_classes(theory, &slabels) {
        Ok(()) => {},
        Err(e) => {
            return Err(e);
        },
    }
    proof {
        lemma_class_labels_ok(sn, spv, spv.len() as int);
    }
    let sort_rename = rename_of_labels(&snames, &slabels);
    let onames = op_name_list(theory);
    let ghost on = crate::term::names_view(onames@);
    let mut olabels = op_name_list(theory);
    let mut j: usize = 0;
    while j < op.len()
        invariant
            opv == pairs_view(op@),
            on == crate::term::names_view(onames@),
            on == op_names(theory.ops@),
            pairs_listed(on, opv),
            olabels@.len() == onames@.len(),
            j <= op@.len(),
            crate::term::names_view(olabels@) == class_labels(on, opv, j as int),
        decreases op@.len() - j,
    {
        proof {
            lemma_pair_listed(on, opv, j as int);
            assert(opv[j as int] == (op@[j as int].0@, op@[j as int].1@));
        }
        union_labels(&onames, &mut olabels, op[j].0.as_str(), op[j].1.as_str());
        j = j + 1;
    }
    proof {
        lemma_class_labels_ok(on, opv, opv.len() as int);
        assert(op_names(theory.ops@).len() == theory.ops@.len());
    }
    let op_rename = rename_of_labels(&onames, &olabels);
    match check_op_classes(theory, &olabels, &sort_rename, &op_rename) {
        Ok(()) => {},
        Err(e) => {
            return Err(e);
        },
    }
    Ok((sort_rename, op_rename))
}


proof fn lemma_sort_pair_arity(sorts: Seq<Sort>, rep: Seq<char>, m: Seq<char>, i: int, j: int)
    requires
        first_named(sort_names(sorts), rep) == Some(i),
        first_named(sort_names(sorts), m) == Some(j),
        sorts[i].params@.len() != sorts[j].params@.len(),
    ensures
        sort_pair_error(sorts, rep, m) == Some(SGatError::QuotientIncompatible {
            name_a: rep,
            name_b: m,
            detail: "sort arities differ ("@ + decimal(sorts[i].params@.len()) + " vs "@ + decimal(sorts[j].params@.len()) + ")"@,
        }),
{
    reveal(sort_pair_error);
}

proof fn lemma_sort_pair_kind(sorts: Seq<Sort>, rep: Seq<char>, m: Seq<char>, i: int, j: int)
    requires
        first_named(sort_names(sorts), rep) == Some(i),
        first_named(sort_names(sorts), m) == Some(j),
        sorts[i].params@.len() == sorts[j].params@.len(),
        sorts[i].kind != sorts[j].kind,
    ensures
        sort_pair_error(sorts, rep, m) == Some(SGatError::QuotientIncompatible {
            name_a: rep,
            name_b: m,
            detail: "sort kinds differ ("@ + kind_text(sorts[i].kind) + " vs "@ + kind_text(sorts[j].kind) + ")"@,
        }),
{
    reveal(sort_pair_error);
}

proof fn lemma_sort_pair_closure(sorts: Seq<Sort>, rep: Seq<char>, m: Seq<char>, i: int, j: int)
    requires
        first_named(sort_names(sorts), rep) == Some(i),
        first_named(sort_names(sorts), m) == Some(j),
        sorts[i].params@.len() == sorts[j].params@.len(),
        sorts[i].kind == sorts[j].kind,
        closure_view(sorts[i].closure) != closure_view(sorts[j].closure),
    ensures
        sort_pair_error(sorts, rep, m) == Some(SGatError::QuotientIncompatible {
            name_a: rep,
            name_b: m,
            detail: "sort closures differ ("@ + closure_text(closure_view(sorts[i].closure)) + " vs "@
                + closure_text(closure_view(sorts[j].closure)) + ")"@,
        }),
{
    reveal(sort_pair_error);
}

proof fn lemma_sort_pair_none(sorts: Seq<Sort>, rep: Seq<char>, m: Seq<char>, i: int, j: int)
    requires
        first_named(sort_names(sorts), rep) == Some(i),
        first_named(sort_names(sorts), m) == Some(j),
        sorts[i].params@.len() == sorts[j].params@.len(),
        sorts[i].kind == sorts[j].kind,
        closure_view(sorts[i].closure) == closure_view(sorts[j].closure),
    ensures
        sort_pair_error(sorts, rep, m) is None,
{
    reveal(sort_pair_error);
}

fn kind_error(rep: &String, m: &String, a: SortKind, b: SortKind) -> (e: GatError)
    ensures
        e@ == (SGatError::QuotientIncompatible {
            name_a: rep@,
            name_b: m@,
            detail: "sort kinds differ ("@ + kind_text(a) + " vs "@ + kind_text(b) + ")"@,
        }),
{
    let d = versus_text("sort kinds differ (", crate::text::kind_string(a).as_str(), crate::text::kind_string(b).as_str());
    GatError::QuotientIncompatible { name_a: rep.clone(), name_b: m.clone(), detail: d }
}

fn closure_error(rep: &String, m: &String, a: &SortClosure, b: &SortClosure) -> (e: GatError)
    ensures
        e@ == (SGatError::QuotientIncompatible {
            name_a: rep@,
            name_b: m@,
            detail: "sort closures differ ("@ + closure_text(closure_view(*a)) + " vs "@ + closure_text(closure_view(*b)) + ")"@,
        }),
{
    let d = versus_text("sort closures differ (", crate::text::closure_string(a).as_str(), crate::text::closure_string(b).as_str());
    GatError::QuotientIncompatible { name_a: rep.clone(), name_b: m.clone(), detail: d }
}

fn arity_error(rep: &String, m: &String, ra: usize, ma: usize) -> (e: GatError)
    ensures
        e@ == (SGatError::QuotientIncompatible {
            name_a: rep@,
            name_b: m@,
            detail: "sort arities differ ("@ + decimal(ra as nat) + " vs "@ + decimal(ma as nat) + ")"@,
        }),
{
    let d = versus_text("sort arities differ (", crate::text::decimal_string(ra).as_str(), crate::text::decimal_string(ma).as_str());
    GatError::QuotientIncompatible { name_a: rep.clone(), name_b: m.clone(), detail: d }
}


// ---------------------------------------------------------------------------
// Rebuilding the quotient
// ---------------------------------------------------------------------------

/// A sort declaration with its parameter sorts renamed.
pub open spec fn quotient_sort(s: SSort, sm: Map<Seq<char>, Seq<char>>, om: Map<Seq<char>, Seq<char>>) -> SSort {
    SSort {
        name: s.name,
        params: Seq::new(s.params.len(), |i: int| (s.params[i].0, apply_maps_spec(s.params[i].1, sm, om))),
        kind: s.kind,
        closure: s.closure,
    }
}

/// Whether a sort named `n` has been rebuilt already.
pub open spec fn has_sort_model(acc: Seq<SSort>, n: Seq<char>) -> bool {
    exists|j: int| 0 <= j < acc.len() && #[trigger] acc[j].name == n
}

/// The quotient's sorts from position `k` on, after `acc`: one per class,
/// at the first sort of the class, taken from the first declaration of
/// the class label with its parameter sorts renamed.
pub open spec fn rebuild_sorts_from(
    sorts: Seq<Sort>,
    sm: Map<Seq<char>, Seq<char>>,
    om: Map<Seq<char>, Seq<char>>,
    k: int,
    acc: Seq<SSort>,
) -> Result<Seq<SSort>, SGatError>
    decreases (if 0 <= k < sorts.len() { sorts.len() - k } else { 0 }) as nat,
{
    if 0 <= k < sorts.len() {
        let rep = map_name(sm, sorts[k].name@);
        if has_sort_model(acc, rep) {
            rebuild_sorts_from(sorts, sm, om, k + 1, acc)
        } else {
            match first_named(sort_names(sorts), rep) {
                Some(i) => rebuild_sorts_from(sorts, sm, om, k + 1, acc.push(quotient_sort(sorts[i]@, sm, om))),
                None => Err(SGatError::SortNotFound(rep)),
            }
        }
    } else {
        Ok(acc)
    }
}

/// An operation with its input and output sorts renamed.
pub open spec fn quotient_op(o: SOperation, sm: Map<Seq<char>, Seq<char>>, om: Map<Seq<char>, Seq<char>>) -> SOperation {
    SOperation {
        name: o.name,
        inputs: Seq::new(o.inputs.len(), |i: int| (o.inputs[i].0, apply_maps_spec(o.inputs[i].1, sm, om), o.inputs[i].2)),
        output: apply_maps_spec(o.output, sm, om),
    }
}

/// Whether an operation named `n` has been rebuilt already.
pub open spec fn has_op_model(acc: Seq<SOperation>, n: Seq<char>) -> bool {
    exists|j: int| 0 <= j < acc.len() && #[trigger] acc[j].name == n
}

/// The quotient's operations from position `k` on, after `acc`: one per
/// class, at the first operation of the class, taken from the first
/// declaration of the class label with its signature renamed.
pub open spec fn rebuild_ops_from(
    ops: Seq<Operation>,
    sm: Map<Seq<char>, Seq<char>>,
    om: Map<Seq<char>, Seq<char>>,
    k: int,
    acc: Seq<SOperation>,
) -> Result<Seq<SOperation>, SGatError>
    decreases (if 0 <= k < ops.len() { ops.len() - k } else { 0 }) as nat,
{
    if 0 <= k < ops.len() {
        let rep = map_name(om, ops[k].name@);
        if has_op_model(acc, rep) {
            rebuild_ops_from(ops, sm, om, k + 1, acc)
        } else {
            match first_named(op_names(ops), rep) {
                Some(i) => rebuild_ops_from(ops, sm, om, k + 1, acc.push(quotient_op(ops[i]@, sm, om))),
                None => Err(SGatError::OpNotFound(rep)),
            }
        }
    } else {
        Ok(acc)
    }
}

/// An equation with its operations renamed.
pub open spec fn renamed_eq(e: SEquation, om: Map<Seq<char>, Seq<char>>) -> SEquation {
    SEquation { name: e.name, lhs: rename_ops_spec(e.lhs, om), rhs: rename_ops_spec(e.rhs, om) }
}

/// Whether an equation already kept states `e` up to renaming of
/// variables, in either orientation.
pub open spec fn eq_duplicate(acc: Seq<SEquation>, e: SEquation) -> bool {
    exists|j: int| 0 <= j < acc.len() && (#[trigger] alpha_equiv_equation(acc[j].lhs, acc[j].rhs, e.lhs, e.rhs)
        || alpha_equiv_equation(acc[j].lhs, acc[j].rhs, e.rhs, e.lhs))
}

/// The quotient's equations from position `k` on, after `acc`: each
/// renamed, and dropped when it duplicates one already kept.
pub open spec fn rebuild_eqs_from(eqs: Seq<SEquation>, om: Map<Seq<char>, Seq<char>>, k: int, acc: Seq<SEquation>) -> Seq<SEquation>
    decreases (if 0 <= k < eqs.len() { eqs.len() - k } else { 0 }) as nat,
{
    if 0 <= k < eqs.len() {
        let r = renamed_eq(eqs[k], om);
        if eq_duplicate(acc, r) {
            rebuild_eqs_from(eqs, om, k + 1, acc)
        } else {
            rebuild_eqs_from(eqs, om, k + 1, acc.push(r))
        }
    } else {
        acc
    }
}

/// A directed equation with the operations of its sides renamed.
pub open spec fn renamed_rule(d: SDirectedEquation, om: Map<Seq<char>, Seq<char>>) -> SDirectedEquation {
    SDirectedEquation {
        name: d.name,
        lhs: rename_ops_spec(d.lhs, om),
        rhs: rename_ops_spec(d.rhs, om),
        impl_term: d.impl_term,
        inverse: d.inverse,
        source_kind: d.source_kind,
        target_kind: d.target_kind,
        coercion_class: d.coercion_class,
    }
}

/// Whether a directed equation already kept states `d` up to renaming of
/// variables, in the same orientation.
pub open spec fn rule_duplicate(acc: Seq<SDirectedEquation>, d: SDirectedEquation) -> bool {
    exists|j: int| 0 <= j < acc.len() && #[trigger] alpha_equiv_equation(acc[j].lhs, acc[j].rhs, d.lhs, d.rhs)
}

/// The quotient's directed equations from position `k` on, after `acc`.
pub open spec fn rebuild_rules_from(
    ds: Seq<SDirectedEquation>,
    om: Map<Seq<char>, Seq<char>>,
    k: int,
    acc: Seq<SDirectedEquation>,
) -> Seq<SDirectedEquation>
    decreases (if 0 <= k < ds.len() { ds.len() - k } else { 0 }) as nat,
{
    if 0 <= k < ds.len() {
        let r = renamed_rule(ds[k], om);
        if rule_duplicate(acc, r) {
            rebuild_rules_from(ds, om, k + 1, acc)
        } else {
            rebuild_rules_from(ds, om, k + 1, acc.push(r))
        }
    } else {
        acc
    }
}

/// The quotient of `theory` by the identifications `ids`: the theory
/// itself when there are none; otherwise the rename maps' error, a
/// missing declaration, or the theory named like `theory`, extending
/// nothing, with the rebuilt sorts, operations, equations and directed
/// equations and the same policies.
pub open spec fn quotient_spec(theory: Theory, ids: Seq<(Seq<char>, Seq<char>)>) -> Result<STheory, SGatError> {
    if ids.len() == 0 {
        Ok(theory@)
    } else {
        match quotient_maps(theory, ids) {
            Err(e) => Err(e),
            Ok((sm, om)) => match rebuild_sorts_from(theory.sorts@, sm, om, 0, Seq::empty()) {
                Err(e) => Err(e),
                Ok(ss) => match rebuild_ops_from(theory.ops@, sm, om, 0, Seq::empty()) {
                    Err(e) => Err(e),
                    Ok(os) => Ok(
                        STheory {
                            name: theory.name@,
                            extends: Seq::empty(),
                            sorts: ss,
                            ops: os,
                            eqs: rebuild_eqs_from(theory@.eqs, om, 0, Seq::empty()),
                            directed_eqs: rebuild_rules_from(theory@.directed_eqs, om, 0, Seq::empty()),
                            policies: theory@.policies,
                        },
                    ),
                },
            },
        }
    }
}

fn has_sort_named_in(acc: &Vec<Sort>, n: &String) -> (r: bool)
    ensures
        r == has_sort_model(Seq::new(acc@.len(), |i: int| acc@[i]@), n@),
{
    let ghost av = Seq::new(acc@.len(), |i: int| acc@[i]@);
    let mut j: usize = 0;
    while j < acc.len()
        invariant
            av == Seq::new(acc@.len(), |i: int| acc@[i]@),
            j <= acc@.len(),
            forall|q: int| 0 <= q < j ==> av[q].name != n@,
        decreases acc@.len() - j,
    {
        if acc[j].name == *n {
            assert(av[j as int].name == n@);
            return true;
        }
        j = j + 1;
    }
    false
}

fn quotient_sort_exec(s: &Sort, sm: &RenameMap, om: &RenameMap) -> (r: Sort)
    ensures
        r@ == quotient_sort(s@, sm@, om@),
{
    let mut params: Vec<SortParam> = Vec::new();
    let mut i: usize = 0;
    while i < s.params.len()
        invariant
            i <= s.params@.len(),
            params@.len() == i,
            forall|k: int| 0 <= k < i ==> #[trigger] crate::sort::param_view(params@[k]) == (s@.params[k].0, apply_maps_spec(s@.params[k].1, sm@, om@)),
        decreases s.params@.len() - i,
    {
        let e = s.params[i].sort.apply_maps(sm, om);
        proof {
            assert(e@ =~= apply_maps_spec(s@.params[i as int].1, sm@, om@));
        }
        params.push(SortParam { name: s.params[i].name.clone(), sort: e });
        i = i + 1;
    }
    let r = Sort { name: s.name.clone(), params, kind: s.kind, closure: s.closure.copy() };
    assert(r@.params =~= quotient_sort(s@, sm@, om@).params);
    r
}

fn rebuild_sorts(theory: &Theory, sm: &RenameMap, om: &RenameMap) -> (r: Result<Vec<Sort>, GatError>)
    ensures
        match r {
            Ok(v) => rebuild_sorts_from(theory.sorts@, sm@, om@, 0, Seq::empty()) == Ok::<Seq<SSort>, SGatError>(
                Seq::new(v@.len(), |i: int| v@[i]@),
            ),
            Err(e) => rebuild_sorts_from(theory.sorts@, sm@, om@, 0, Seq::empty()) == Err::<Seq<SSort>, SGatError>(e@),
        },
{
    let ghost total = rebuild_sorts_from(theory.sorts@, sm@, om@, 0, Seq::empty());
    let mut out: Vec<Sort> = Vec::new();
    proof {
        assert(Seq::new(out@.len(), |i: int| out@[i]@) =~= Seq::<SSort>::empty());
    }
    let mut k: usize = 0;
    while k < theory.sorts.len()
        invariant
            total == rebuild_sorts_from(theory.sorts@, sm@, om@, 0, Seq::empty()),
            k <= theory.sorts@.len(),
            rebuild_sorts_from(theory.sorts@, sm@, om@, k as int, Seq::new(out@.len(), |i: int| out@[i]@)) == total,
        decreases theory.sorts@.len() - k,
    {
        let rep = sm.lookup_or_same(&theory.sorts[k].name);
        if !has_sort_named_in(&out, &rep) {
            match theory.find_sort(rep.as_str()) {
                Some(rs) => {
                    let q = quotient_sort_exec(rs, sm, om);
                    let ghost before = Seq::new(out@.len(), |i: int| out@[i]@);
                    out.push(q);
                    proof {
                        assert(Seq::new(out@.len(), |i: int| out@[i]@) =~= before.push(q@));
                    }
                },
                None => {
                    return Err(GatError::SortNotFound(rep));
                },
            }
        }
        k = k + 1;
    }
    Ok(out)
}

fn has_op_named_in(acc: &Vec<Operation>, n: &String) -> (r: bool)
    ensures
        r == has_op_model(Seq::new(acc@.len(), |i: int| acc@[i]@), n@),
{
    let ghost av = Seq::new(acc@.len(), |i: int| acc@[i]@);
    let mut j: usize = 0;
    while j < acc.len()
        invariant
            av == Seq::new(acc@.len(), |i: int| acc@[i]@),
            j <= acc@.len(),
            forall|q: int| 0 <= q < j ==> av[q].name != n@,
        decreases acc@.len() - j,
    {
        if acc[j].name == *n {
            assert(av[j as int].name == n@);
            return true;
        }
        j = j + 1;
    }
    false
}

fn quotient_op_exec(o: &Operation, sm: &RenameMap, om: &RenameMap) -> (r: Operation)
    ensures
        r@ == quotient_op(o@, sm@, om@),
{
    let mut inputs: Vec<(String, SortExpr, Implicit)> = Vec::new();
    let mut i: usize = 0;
    while i < o.inputs.len()
        invariant
            i <= o.inputs@.len(),
            inputs@.len() == i,
            forall|k: int| 0 <= k < i ==> #[trigger] crate::op::input_view(inputs@[k]) == (o@.inputs[k].0, apply_maps_spec(o@.inputs[k].1, sm@, om@), o@.inputs[k].2),
        decreases o.inputs@.len() - i,
    {
        let e = o.inputs[i].1.apply_maps(sm, om);
        proof {
            assert(e@ =~= apply_maps_spec(o@.inputs[i as int].1, sm@, om@));
        }
        inputs.push((o.inputs[i].0.clone(), e, o.inputs[i].2));
        i = i + 1;
    }
    let out = o.output.apply_maps(sm, om);
    proof {
        assert(out@ =~= apply_maps_spec(o@.output, sm@, om@));
    }
    let r = Operation::with_implicit(o.name.as_str(), inputs, out);
    assert(r@.inputs =~= quotient_op(o@, sm@, om@).inputs);
    r
}

fn rebuild_ops(theory: &Theory, sm: &RenameMap, om: &RenameMap) -> (r: Result<Vec<Operation>, GatError>)
    ensures
        match r {
            Ok(v) => rebuild_ops_from(theory.ops@, sm@, om@, 0, Seq::empty()) == Ok::<Seq<SOperation>, SGatError>(
                Seq::new(v@.len(), |i: int| v@[i]@),
            ),
            Err(e) => rebuild_ops_from(theory.ops@, sm@, om@, 0, Seq::empty()) == Err::<Seq<SOperation>, SGatError>(e@),
        },
{
    let ghost total = rebuild_ops_from(theory.ops@, sm@, om@, 0, Seq::empty());
    let mut out: Vec<Operation> = Vec::new();
    proof {
        assert(Seq::new(out@.len(), |i: int| out@[i]@) =~= Seq::<SOperation>::empty());
    }
    let mut k: usize = 0;
    while k < theory.ops.len()
        invariant
            total == rebuild_ops_from(theory.ops@, sm@, om@, 0, Seq::empty()),
            k <= theory.ops@.len(),
            rebuild_ops_from(theory.ops@, sm@, om@, k as int, Seq::new(out@.len(), |i: int| out@[i]@)) == total,
        decreases theory.ops@.len() - k,
    {
        let rep = om.lookup_or_same(&theory.ops[k].name);
        if !has_op_named_in(&out, &rep) {
            match theory.find_op(rep.as_str()) {
                Some(ro) => {
                    let q = quotient_op_exec(ro, sm, om);
                    let ghost before = Seq::new(out@.len(), |i: int| out@[i]@);
                    out.push(q);
                    proof {
                        assert(Seq::new(out@.len(), |i: int| out@[i]@) =~= before.push(q@));
                    }
                },
                None => {
                    return Err(GatError::OpNotFound(rep));
                },
            }
        }
        k = k + 1;
    }
    Ok(out)
}

fn is_eq_duplicate(acc: &Vec<Equation>, e: &Equation) -> (r: bool)
    ensures
        r == eq_duplicate(Seq::new(acc@.len(), |i: int| acc@[i]@), e@),
{
    let ghost av = Seq::new(acc@.len(), |i: int| acc@[i]@);
    let mut j: usize = 0;
    while j < acc.len()
        invariant
            av == Seq::new(acc@.len(), |i: int| acc@[i]@),
            j <= acc@.len(),
            forall|q: int| 0 <= q < j ==> !(#[trigger] alpha_equiv_equation(av[q].lhs, av[q].rhs, e@.lhs, e@.rhs)
                || alpha_equiv_equation(av[q].lhs, av[q].rhs, e@.rhs, e@.lhs)),
        decreases acc@.len() - j,
    {
        let k = &acc[j];
        assert(av[j as int] == k@);
        if alpha_equivalent_equation(&k.lhs, &k.rhs, &e.lhs, &e.rhs) || alpha_equivalent_equation(&k.lhs, &k.rhs, &e.rhs, &e.lhs) {
            assert(alpha_equiv_equation(av[j as int].lhs, av[j as int].rhs, e@.lhs, e@.rhs)
                || alpha_equiv_equation(av[j as int].lhs, av[j as int].rhs, e@.rhs, e@.lhs));
            return true;
        }
        assert(!alpha_equiv_equation(av[j as int].lhs, av[j as int].rhs, e@.lhs, e@.rhs));
        assert(!alpha_equiv_equation(av[j as int].lhs, av[j as int].rhs, e@.rhs, e@.lhs));
        j = j + 1;
    }
    false
}

fn rebuild_eqs(eqs: &Vec<Equation>, om: &RenameMap) -> (r: Vec<Equation>)
    ensures
        Seq::new(r@.len(), |i: int| r@[i]@) == rebuild_eqs_from(Seq::new(eqs@.len(), |i: int| eqs@[i]@), om@, 0, Seq::empty()),
{
    let ghost ev = Seq::new(eqs@.len(), |i: int| eqs@[i]@);
    let ghost total = rebuild_eqs_from(ev, om@, 0, Seq::empty());
    let mut out: Vec<Equation> = Vec::new();
    proof {
        assert(Seq::new(out@.len(), |i: int| out@[i]@) =~= Seq::<SEquation>::empty());
    }
    let mut k: usize = 0;
    while k < eqs.len()
        invariant
            ev == Seq::new(eqs@.len(), |i: int| eqs@[i]@),
            total == rebuild_eqs_from(ev, om@, 0, Seq::empty()),
            k <= eqs@.len(),
            rebuild_eqs_from(ev, om@, k as int, Seq::new(out@.len(), |i: int| out@[i]@)) == total,
        decreases eqs@.len() - k,
    {
        let renamed = eqs[k].rename_ops(om);
        proof {
            assert(renamed@ == renamed_eq(ev[k as int], om@));
        }
        if !is_eq_duplicate(&out, &renamed) {
            let ghost before = Seq::new(out@.len(), |i: int| out@[i]@);
            let ghost rv = renamed@;
            out.push(renamed);
            proof {
                assert(Seq::new(out@.len(), |i: int| out@[i]@) =~= before.push(rv));
            }
        }
        k = k + 1;
    }
    out
}

fn is_rule_duplicate(acc: &Vec<DirectedEquation>, d: &DirectedEquation) -> (r: bool)
    ensures
        r == rule_duplicate(Seq::new(acc@.len(), |i: int| acc@[i]@), d@),
{
    let ghost av = Seq::new(acc@.len(), |i: int| acc@[i]@);
    let mut j: usize = 0;
    while j < acc.len()
        invariant
            av == Seq::new(acc@.len(), |i: int| acc@[i]@),
            j <= acc@.len(),
            forall|q: int| 0 <= q < j ==> !#[trigger] alpha_equiv_equation(av[q].lhs, av[q].rhs, d@.lhs, d@.rhs),
        decreases acc@.len() - j,
    {
        let k = &acc[j];
        if alpha_equivalent_equation(&k.lhs, &k.rhs, &d.lhs, &d.rhs) {
            assert(av[j as int] == k@);
            assert(alpha_equiv_equation(av[j as int].lhs, av[j as int].rhs, d@.lhs, d@.rhs));
            return true;
        }
        j = j + 1;
    }
    false
}

fn rebuild_rules(ds: &Vec<DirectedEquation>, om: &RenameMap) -> (r: Vec<DirectedEquation>)
    ensures
        Seq::new(r@.len(), |i: int| r@[i]@) == rebuild_rules_from(Seq::new(ds@.len(), |i: int| ds@[i]@), om@, 0, Seq::empty()),
{
    let ghost dv = Seq::new(ds@.len(), |i: int| ds@[i]@);
    let ghost total = rebuild_rules_from(dv, om@, 0, Seq::empty());
    let mut out: Vec<DirectedEquation> = Vec::new();
    proof {
        assert(Seq::new(out@.len(), |i: int| out@[i]@) =~= Seq::<SDirectedEquation>::empty());
    }
    let mut k: usize = 0;
    while k < ds.len()
        invariant
            dv == Seq::new(ds@.len(), |i: int| ds@[i]@),
            total == rebuild_rules_from(dv, om@, 0, Seq::empty()),
            k <= ds@.len(),
            rebuild_rules_from(dv, om@, k as int, Seq::new(out@.len(), |i: int| out@[i]@)) == total,
        decreases ds@.len() - k,
    {
        let renamed = ds[k].rename_ops(om);
        proof {
            assert(renamed@ == renamed_rule(dv[k as int], om@));
        }
        if !is_rule_duplicate(&out, &renamed) {
            let ghost before = Seq::new(out@.len(), |i: int| out@[i]@);
            let ghost rv = renamed@;
            out.push(renamed);
            proof {
                assert(Seq::new(out@.len(), |i: int| out@[i]@) =~= before.push(rv));
            }
        }
        k = k + 1;
    }
    out
}

/// Quotient a theory by identifying sorts with sorts and operations with
/// operations. Classes are closed transitively; each class is named by
/// its first member in the order on names. Identified sorts must agree on
/// arity, kind and closure, and identified operations on their signature
/// in the quotient. Equations and directed equations are carried over
/// with their operations renamed, dropping duplicates up to renaming of
/// variables; policies are kept; the quotient extends nothing.
pub fn quotient(theory: &Theory, identifications: &[(String, String)]) -> (r: Result<Theory, GatError>)
    ensures
        match r {
            Ok(q) => quotient_spec(*theory, pairs_view(identifications@)) == Ok::<STheory, SGatError>(q@),
            Err(e) => quotient_spec(*theory, pairs_view(identifications@)) == Err::<STheory, SGatError>(e@),
        },
{
    if identifications.len() == 0 {
        return Ok(theory.copy());
    }
    let (sm, om) = match build_rename_maps(theory, identifications) {
        Ok(x) => x,
        Err(e) => {
            return Err(e);
        },
    };
    let sorts = match rebuild_sorts(theory, &sm, &om) {
        Ok(v) => v,
        Err(e) => {
            return Err(e);
        },
    };
    let ops = match rebuild_ops(theory, &sm, &om) {
        Ok(v) => v,
        Err(e) => {
            return Err(e);
        },
    };
    let eqs = rebuild_eqs(&theory.eqs, &om);
    let directed_eqs = rebuild_rules(&theory.directed_eqs, &om);
    let mut policies: Vec<ConflictPolicy> = Vec::new();
    let mut i: usize = 0;
    while i < theory.policies.len()
        invariant
            i <= theory.policies@.len(),
            policies@.len() == i,
            forall|k: int| 0 <= k < i ==> #[trigger] policies@[k]@ == theory.policies@[k]@,
        decreases theory.policies@.len() - i,
    {
        policies.push(theory.policies[i].copy());
        i = i + 1;
    }
    let q = Theory::full(theory.name.as_str(), Vec::new(), sorts, ops, eqs, directed_eqs, policies);
    proof {
        assert(q@.extends =~= Seq::<Seq<char>>::empty());
        assert(q@.policies =~= theory@.policies);
    }
    Ok(q)
}


// ---------------------------------------------------------------------------
// Laws
// ---------------------------------------------------------------------------

/// Quotienting by no identifications gives the theory back.
pub proof fn lemma_quotient_empty(theory: Theory)
    ensures
        quotient_spec(theory, Seq::empty()) == Ok::<STheory, SGatError>(theory@),
{
}

proof fn lemma_rename_is_label(names: Seq<Seq<char>>, labels: Seq<Seq<char>>, x: Seq<char>)
    requires
        names.contains(x),
    ensures
        map_name(label_rename(names, labels), x) == label_of(names, labels, x),
{
}

proof fn lemma_classify_from(
    snames: Seq<Seq<char>>,
    onames: Seq<Seq<char>>,
    ids: Seq<(Seq<char>, Seq<char>)>,
    i: int,
    sp: Seq<(Seq<char>, Seq<char>)>,
    op: Seq<(Seq<char>, Seq<char>)>,
)
    requires
        0 <= i <= ids.len(),
    ensures
        match classify_from(snames, onames, ids, i, sp, op) {
            Ok((sp2, op2)) => {
                &&& sp.len() <= sp2.len()
                &&& op.len() <= op2.len()
                &&& forall|k: int| 0 <= k < sp.len() ==> #[trigger] sp2[k] == sp[k]
                &&& forall|k: int| 0 <= k < op.len() ==> #[trigger] op2[k] == op[k]
                &&& forall|j: int| i <= j < ids.len() ==> if snames.contains(#[trigger] ids[j].0) && snames.contains(ids[j].1) {
                    exists|k: int| 0 <= k < sp2.len() && sp2[k] == ids[j]
                } else {
                    exists|k: int| 0 <= k < op2.len() && op2[k] == ids[j]
                }
            },
            Err(_) => true,
        },
    decreases ids.len() - i,
{
    if i < ids.len() {
        let a = ids[i].0;
        let b = ids[i].1;
        if snames.contains(a) && snames.contains(b) {
            lemma_classify_from(snames, onames, ids, i + 1, sp.push((a, b)), op);
            match classify_from(snames, onames, ids, i, sp, op) {
                Ok((sp2, op2)) => {
                    assert(sp2[sp.len() as int] == sp.push((a, b))[sp.len() as int]);
                    assert(sp2[sp.len() as int] == ids[i]);
                },
                Err(_) => {},
            }
        } else if onames.contains(a) && onames.contains(b) {
            lemma_classify_from(snames, onames, ids, i + 1, sp, op.push((a, b)));
            match classify_from(snames, onames, ids, i, sp, op) {
                Ok((sp2, op2)) => {
                    assert(op2[op.len() as int] == op.push((a, b))[op.len() as int]);
                    assert(op2[op.len() as int] == ids[i]);
                },
                Err(_) => {},
            }
        }
    }
}

/// A successful quotient identifies every given pair: two sort names get
/// the same representative under the sort renaming, two operation names
/// under the operation renaming.
pub proof fn lemma_quotient_identifies(theory: Theory, ids: Seq<(Seq<char>, Seq<char>)>, j: int)
    requires
        quotient_maps(theory, ids) is Ok,
        0 <= j < ids.len(),
    ensures
        ({
            let (sm, om) = quotient_maps(theory, ids)->Ok_0;
            if sort_names(theory.sorts@).contains(ids[j].0) && sort_names(theory.sorts@).contains(ids[j].1) {
                map_name(sm, ids[j].0) == map_name(sm, ids[j].1)
            } else {
                map_name(om, ids[j].0) == map_name(om, ids[j].1)
            }
        }),
{
    let snames = sort_names(theory.sorts@);
    let onames = op_names(theory.ops@);
    lemma_classify_from(snames, onames, ids, 0, Seq::empty(), Seq::empty());
    lemma_classify_listed(snames, onames, ids, 0, Seq::empty(), Seq::empty());
    let (sp, op) = classify_from(snames, onames, ids, 0, Seq::empty(), Seq::empty())->Ok_0;
    let sl = class_labels(snames, sp, sp.len() as int);
    let ol = class_labels(onames, op, op.len() as int);
    let x = ids[j];
    if snames.contains(x.0) && snames.contains(x.1) {
        let k = choose|k: int| 0 <= k < sp.len() && sp[k] == x;
        lemma_class_labels_merged(snames, sp, sp.len() as int);
        assert(label_of(snames, sl, sp[k].0) == label_of(snames, sl, sp[k].1));
        lemma_pair_listed(snames, sp, k);
        lemma_rename_is_label(snames, sl, x.0);
        lemma_rename_is_label(snames, sl, x.1);
    } else {
        let k = choose|k: int| 0 <= k < op.len() && op[k] == x;
        lemma_class_labels_merged(onames, op, op.len() as int);
        assert(label_of(onames, ol, op[k].0) == label_of(onames, ol, op[k].1));
        lemma_pair_listed(onames, op, k);
        lemma_rename_is_label(onames, ol, x.0);
        lemma_rename_is_label(onames, ol, x.1);
    }
}

proof fn lemma_classify_listed(
    snames: Seq<Seq<char>>,
    onames: Seq<Seq<char>>,
    ids: Seq<(Seq<char>, Seq<char>)>,
    i: int,
    sp: Seq<(Seq<char>, Seq<char>)>,
    op: Seq<(Seq<char>, Seq<char>)>,
)
    requires
        0 <= i <= ids.len(),
        pairs_listed(snames, sp),
        pairs_listed(onames, op),
    ensures
        match classify_from(snames, onames, ids, i, sp, op) {
            Ok((sp2, op2)) => pairs_listed(snames, sp2) && pairs_listed(onames, op2),
            Err(_) => true,
        },
    decreases ids.len() - i,
{
    if i < ids.len() {
        let a = ids[i].0;
        let b = ids[i].1;
        if snames.contains(a) && snames.contains(b) {
            lemma_push_listed(snames, sp, a, b);
            lemma_classify_listed(snames, onames, ids, i + 1, sp.push((a, b)), op);
        } else if onames.contains(a) && onames.contains(b) {
            lemma_push_listed(onames, op, a, b);
            lemma_classify_listed(snames, onames, ids, i + 1, sp, op.push((a, b)));
        }
    }
}

/// In a successful quotient, no sort's representative comes after it in
/// the order on names, nor any operation's.
pub proof fn lemma_quotient_rep_first(theory: Theory, ids: Seq<(Seq<char>, Seq<char>)>, x: Seq<char>)
    requires
        quotient_maps(theory, ids) is Ok,
    ensures
        sort_names(theory.sorts@).contains(x) ==> name_le(map_name(quotient_maps(theory, ids)->Ok_0.0, x), x),
        op_names(theory.ops@).contains(x) ==> name_le(map_name(quotient_maps(theory, ids)->Ok_0.1, x), x),
{
    let snames = sort_names(theory.sorts@);
    let onames = op_names(theory.ops@);
    lemma_classify_listed(snames, onames, ids, 0, Seq::empty(), Seq::empty());
    let (sp, op) = classify_from(snames, onames, ids, 0, Seq::empty(), Seq::empty())->Ok_0;
    let sl = class_labels(snames, sp, sp.len() as int);
    let ol = class_labels(onames, op, op.len() as int);
    lemma_class_labels_le(snames, sp, sp.len() as int);
    lemma_class_labels_le(onames, op, op.len() as int);
    if snames.contains(x) {
        lemma_rename_is_label(snames, sl, x);
    }
    if onames.contains(x) {
        lemma_rename_is_label(onames, ol, x);
    }
}

} // verus!
