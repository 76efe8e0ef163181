//! Models of theories given by tables: a carrier of values for each sort
//! and a table of argument rows for each operation, and their migration
//! along theory morphisms.
use vstd::prelude::*;
use vstd::string::*;

use crate::error::{GatError, SGatError};
use crate::maps::{entries_map, entry_live, entry_views, lemma_entries_map_dom, lemma_entries_map_last, lemma_entries_map_live, live_at, NameMap};
use crate::morphism::TheoryMorphism;

verus! {

/// A value of a carrier.
#[derive(Debug, PartialEq)]
pub enum ModelValue {
    /// A string.
    Str(String),
    /// A 64-bit integer.
    Int(i64),
    /// A boolean.
    Bool(bool),
    /// A list of values.
    List(Vec<ModelValue>),
    /// Values by name; a later entry for a name replaces an earlier one,
    /// so a record is the map from names to values that its entries
    /// denote.
    Record(Vec<(String, ModelValue)>),
    /// The absent value.
    Null,
}

/// The model of a [`ModelValue`].
pub enum SModelValue {
    /// See [`ModelValue::Str`].
    Str(Seq<char>),
    /// See [`ModelValue::Int`].
    Int(i64),
    /// See [`ModelValue::Bool`].
    Bool(bool),
    /// See [`ModelValue::List`].
    List(Seq<SModelValue>),
    /// See [`ModelValue::Record`]: the map from names to values.
    Record(Map<Seq<char>, SModelValue>),
    /// See [`ModelValue::Null`].
    Null,
}

impl ModelValue {
    /// The model of this value.
    pub open spec fn sview(&self) -> SModelValue
        decreases self,
    {
        match self {
            ModelValue::Str(s) => SModelValue::Str(s@),
            ModelValue::Int(i) => SModelValue::Int(*i),
            ModelValue::Bool(b) => SModelValue::Bool(*b),
            ModelValue::List(v) => SModelValue::List(
                Seq::new(v@.len(), |i: int| if 0 <= i < v@.len() { v@[i].sview() } else { SModelValue::Null }),
            ),
            ModelValue::Record(es) => SModelValue::Record(
                Map::new(
                    |k: Seq<char>| exists|i: int| 0 <= i < es@.len() && #[trigger] es@[i].0@ == k,
                    |k: Seq<char>|
                        {
                            let i = last_index(es@, k);
                            if 0 <= i < es@.len() {
                                es@[i].1.sview()
                            } else {
                                SModelValue::Null
                            }
                        },
                ),
            ),
            ModelValue::Null => SModelValue::Null,
        }
    }
}

impl View for ModelValue {
    type V = SModelValue;

    open spec fn view(&self) -> SModelValue {
        self.sview()
    }
}

/// The models of a list of values.
pub open spec fn values_view(v: Seq<ModelValue>) -> Seq<SModelValue> {
    Seq::new(v.len(), |i: int| v[i]@)
}

/// The position of the last entry named `k`.
pub open spec fn last_index(es: Seq<(String, ModelValue)>, k: Seq<char>) -> int {
    choose|i: int| 0 <= i < es.len() && es[i].0@ == k && forall|j: int| i < j < es.len() ==> #[trigger] es[j].0@ != k
}

/// A record is the map its entries denote, a later entry for a name
/// replacing an earlier one.
pub proof fn lemma_record_map(v: ModelValue)
    requires
        v is Record,
    ensures
        v@ == SModelValue::Record(entries_map(v->Record_0@)),
{
    let es = v->Record_0@;
    let m = v@->Record_0;
    let e = entries_map(es);
    assert forall|k: Seq<char>| #[trigger] m.contains_key(k) == e.contains_key(k) by {
        lemma_entries_map_dom(es, k);
        if e.contains_key(k) {
            let i = choose|i: int| 0 <= i < es.len() && #[trigger] es[i].0@ == k;
            assert(es[i].0@ == k);
        }
    }
    assert forall|k: Seq<char>| #[trigger] m.contains_key(k) implies m[k] == e[k] by {
        lemma_entries_map_dom(es, k);
        lemma_entries_map_live(es, k);
        let w = choose|i: int| 0 <= i < es.len() && #[trigger] es[i].0@ == k && entry_live(es, i);
        assert(es[w].0@ == k && forall|j: int| w < j < es.len() ==> #[trigger] es[j].0@ != k);
        let i = last_index(es, k);
        lemma_entries_map_last(es, i, k);
    }
    assert(m =~= e);
}

/// The models of a list of named values.
pub open spec fn named_values_view(v: Seq<(String, ModelValue)>) -> Seq<(Seq<char>, SModelValue)> {
    Seq::new(v.len(), |i: int| (v[i].0@, v[i].1@))
}

impl ModelValue {
    /// A structural copy of this value.
    pub fn deep_copy(&self) -> (r: ModelValue)
        ensures
            r@ == self@,
        decreases self,
    {
        match self {
            ModelValue::Str(s) => ModelValue::Str(s.clone()),
            ModelValue::Int(i) => ModelValue::Int(*i),
            ModelValue::Bool(b) => ModelValue::Bool(*b),
            ModelValue::Null => ModelValue::Null,
            ModelValue::List(v) => {
                let c = copy_values(v);
                let r = ModelValue::List(c);
                proof {
                    assert(r@->List_0 =~= values_view(c@));
                    assert(self@->List_0 =~= values_view(v@));
                }
                r
            },
            ModelValue::Record(es) => {
                let c = copy_named_values(es);
                let r = ModelValue::Record(c);
                proof {
                    assert(named_values_view(c@).len() == c@.len());
                    assert(named_values_view(es@).len() == es@.len());
                    assert forall|i: int| 0 <= i < c@.len() implies #[trigger] c@[i].0@ == es@[i].0@ && c@[i].1@ == es@[i].1@ by {
                        assert(named_values_view(c@)[i] == named_values_view(es@)[i]);
                    }
                    crate::maps::lemma_entries_map_pointwise(c@, es@);
                    lemma_record_map(r);
                    lemma_record_map(*self);
                }
                r
            },
        }
    }
}

/// A structural copy of a list of values.
pub fn copy_values(v: &Vec<ModelValue>) -> (r: Vec<ModelValue>)
    ensures
        values_view(r@) == values_view(v@),
    decreases v,
{
    let mut r: Vec<ModelValue> = Vec::new();
    let mut i: usize = 0;
    while i < v.len()
        invariant
            i <= v@.len(),
            r@.len() == i,
            forall|j: int| 0 <= j < i ==> #[trigger] r@[j]@ == v@[j]@,
        decreases v@.len() - i,
    {
        proof {
            assert(decreases_to!(v => v@[i as int]));
        }
        r.push(v[i].deep_copy());
        i = i + 1;
    }
    assert(values_view(r@) =~= values_view(v@));
    r
}

/// A structural copy of a list of named values.
pub fn copy_named_values(v: &Vec<(String, ModelValue)>) -> (r: Vec<(String, ModelValue)>)
    ensures
        named_values_view(r@) == named_values_view(v@),
    decreases v,
{
    let mut r: Vec<(String, ModelValue)> = Vec::new();
    let mut i: usize = 0;
    while i < v.len()
        invariant
            i <= v@.len(),
            r@.len() == i,
            forall|j: int| 0 <= j < i ==> #[trigger] r@[j].0@ == v@[j].0@ && r@[j].1@ == v@[j].1@,
        decreases v@.len() - i,
    {
        proof {
            assert(decreases_to!(v => v@[i as int]));
            assert(decreases_to!(v@[i as int] => v@[i as int].1));
        }
        let e = &v[i];
        r.push((e.0.clone(), e.1.deep_copy()));
        i = i + 1;
    }
    assert(named_values_view(r@) =~= named_values_view(v@));
    r
}

/// One row of an operation's table: the arguments and the result.
pub type OpRow = (Vec<ModelValue>, ModelValue);

/// The model of a row.
pub open spec fn row_view(r: OpRow) -> (Seq<SModelValue>, SModelValue) {
    (values_view(r.0@), r.1@)
}

/// The models of the rows of a table.
pub open spec fn rows_view(t: Seq<OpRow>) -> Seq<(Seq<SModelValue>, SModelValue)> {
    Seq::new(t.len(), |i: int| row_view(t[i]))
}

fn copy_rows(t: &Vec<OpRow>) -> (r: Vec<OpRow>)
    ensures
        rows_view(r@) == rows_view(t@),
{
    let mut r: Vec<OpRow> = Vec::new();
    let mut i: usize = 0;
    while i < t.len()
        invariant
            i <= t@.len(),
            r@.len() == i,
            forall|j: int| 0 <= j < i ==> #[trigger] row_view(r@[j]) == row_view(t@[j]),
        decreases t@.len() - i,
    {
        let row = &t[i];
        r.push((copy_values(&row.0), row.1.deep_copy()));
        i = i + 1;
    }
    assert(rows_view(r@) =~= rows_view(t@));
    r
}

/// A model of a theory given by tables: for each sort its carrier, and
/// for each operation the rows `(arguments, result)` that define it.
#[derive(Debug)]
pub struct TableModel {
    /// The name of the theory interpreted.
    pub theory: String,
    /// The carrier of each sort.
    pub sort_interp: NameMap<Vec<ModelValue>>,
    /// The table of each operation.
    pub op_interp: NameMap<Vec<OpRow>>,
}

/// The carriers of a model, by their models.
pub open spec fn carriers(m: TableModel) -> Map<Seq<char>, Seq<SModelValue>> {
    Map::new(|k: Seq<char>| m.sort_interp@.contains_key(k), |k: Seq<char>| values_view(m.sort_interp@[k]))
}

/// The operation tables of a model, by their models.
pub open spec fn tables(m: TableModel) -> Map<Seq<char>, Seq<(Seq<SModelValue>, SModelValue)>> {
    Map::new(|k: Seq<char>| m.op_interp@.contains_key(k), |k: Seq<char>| rows_view(m.op_interp@[k]))
}

impl TableModel {
    /// An empty model of the named theory.
    pub fn new(theory: &str) -> (r: TableModel)
        ensures
            r.theory@ == theory@,
            carriers(r) == Map::<Seq<char>, Seq<SModelValue>>::empty(),
            tables(r) == Map::<Seq<char>, Seq<(Seq<SModelValue>, SModelValue)>>::empty(),
    {
        let r = TableModel { theory: theory.to_owned(), sort_interp: NameMap::new(), op_interp: NameMap::new() };
        assert(carriers(r) =~= Map::<Seq<char>, Seq<SModelValue>>::empty());
        assert(tables(r) =~= Map::<Seq<char>, Seq<(Seq<SModelValue>, SModelValue)>>::empty());
        r
    }

    /// Set the carrier of a sort.
    pub fn add_sort(&mut self, name: &str, values: Vec<ModelValue>)
        ensures
            final(self).theory@ == old(self).theory@,
            carriers(*final(self)) == carriers(*old(self)).insert(name@, values_view(values@)),
            tables(*final(self)) == tables(*old(self)),
    {
        self.sort_interp.insert(name.to_owned(), values);
        proof {
            assert(carriers(*final(self)) =~= carriers(*old(self)).insert(name@, values_view(values@)));
            assert(tables(*final(self)) =~= tables(*old(self)));
        }
    }

    /// Set the table of an operation.
    pub fn add_op(&mut self, name: &str, rows: Vec<OpRow>)
        ensures
            final(self).theory@ == old(self).theory@,
            carriers(*final(self)) == carriers(*old(self)),
            tables(*final(self)) == tables(*old(self)).insert(name@, rows_view(rows@)),
    {
        self.op_interp.insert(name.to_owned(), rows);
        proof {
            assert(carriers(*final(self)) =~= carriers(*old(self)));
            assert(tables(*final(self)) =~= tables(*old(self)).insert(name@, rows_view(rows@)));
        }
    }
}

/// The image of the first live entry of a renaming, from position `i` on,
/// that `dom` lacks.
pub open spec fn first_unmapped<V>(vs: Seq<(Seq<char>, Seq<char>)>, dom: Map<Seq<char>, V>, i: int) -> Option<Seq<char>>
    decreases (if 0 <= i < vs.len() { vs.len() - i } else { 0 }) as nat,
{
    if 0 <= i < vs.len() {
        if live_at(vs, i) && !dom.contains_key(vs[i].1) {
            Some(vs[i].1)
        } else {
            first_unmapped(vs, dom, i + 1)
        }
    } else {
        None
    }
}

/// The error for a codomain sort (or, unless `sort`, operation) that the
/// model does not interpret.
pub open spec fn migrate_error(sort: bool, name: Seq<char>) -> SGatError {
    if sort {
        SGatError::ModelError("sort interpretation for '"@ + name + "' not found in model"@)
    } else {
        SGatError::ModelError("operation interpretation for '"@ + name + "' not found in model"@)
    }
}

/// `m` re-keyed along the renaming `r`: each name `r` maps gets the
/// entry of its image.
pub open spec fn rekeyed<V>(r: Map<Seq<char>, Seq<char>>, m: Map<Seq<char>, V>) -> Map<Seq<char>, V> {
    Map::new(|k: Seq<char>| r.contains_key(k), |k: Seq<char>| m[r[k]])
}

fn migrate_error_exec(sort: bool, name: &String) -> (e: GatError)
    ensures
        e@ == migrate_error(sort, name@),
{
    proof {
        reveal_strlit("sort interpretation for '");
        reveal_strlit("operation interpretation for '");
        reveal_strlit("' not found in model");
    }
    let mut msg = String::new();
    if sort {
        msg.append("sort interpretation for '");
    } else {
        msg.append("operation interpretation for '");
    }
    msg.append(name.as_str());
    msg.append("' not found in model");
    proof {
        if sort {
            assert(msg@ =~= "sort interpretation for '"@ + name@ + "' not found in model"@);
        } else {
            assert(msg@ =~= "operation interpretation for '"@ + name@ + "' not found in model"@);
        }
    }
    GatError::ModelError(msg)
}

/// Migrate a model of the codomain of `morphism` to its domain: each sort
/// (operation) the morphism maps is interpreted as its image is. A mapped
/// sort (then operation) whose image the model does not interpret is an
/// error, the first in the renaming's entry order.
pub fn migrate_model(morphism: &TheoryMorphism, model: &TableModel) -> (r: Result<TableModel, GatError>)
    ensures
        match first_unmapped(entry_views(morphism.sort_map.entries@), carriers(*model), 0) {
            Some(c) => r matches Err(e) && e@ == migrate_error(true, c),
            None => match first_unmapped(entry_views(morphism.op_map.entries@), tables(*model), 0) {
                Some(c) => r matches Err(e) && e@ == migrate_error(false, c),
                None => r matches Ok(n) && n.theory@ == model.theory@ && carriers(n) == rekeyed(morphism.sort_map@, carriers(*model))
                    && tables(n) == rekeyed(morphism.op_map@, tables(*model)),
            },
        },
{
    let mut out = TableModel::new(model.theory.as_str());
    let ghost vs = entry_views(morphism.sort_map.entries@);
    let ghost cs = carriers(*model);
    proof {
        crate::pushout::lemma_live_entries(morphism.sort_map.entries@);
        crate::pushout::lemma_live_entries(morphism.op_map.entries@);
    }
    let mut i: usize = 0;
    while i < morphism.sort_map.entries.len()
        invariant
            vs == entry_views(morphism.sort_map.entries@),
            cs == carriers(*model),
            i <= vs.len(),
            out.theory@ == model.theory@,
            first_unmapped(vs, cs, i as int) == first_unmapped(vs, cs, 0),
            tables(out) == Map::<Seq<char>, Seq<(Seq<SModelValue>, SModelValue)>>::empty(),
            forall|k: Seq<char>| #[trigger] carriers(out).contains_key(k) <==> exists|j: int|
                0 <= j < i && live_at(vs, j) && (#[trigger] vs[j]).0 == k,
            forall|k: Seq<char>| #[trigger] carriers(out).contains_key(k) ==> carriers(out)[k] == cs[morphism.sort_map@[k]]
                && morphism.sort_map@.contains_key(k),
            forall|j: int| 0 <= j < vs.len() && live_at(vs, j) ==> morphism.sort_map@.contains_key((#[trigger] vs[j]).0)
                && morphism.sort_map@[vs[j].0] == vs[j].1,
        decreases vs.len() - i,
    {
        let live = morphism.sort_map.is_live(i);
        proof {
            crate::maps::lemma_live_views(morphism.sort_map.entries@, i as int);
        }
        if live {
            let e = &morphism.sort_map.entries[i];
            match model.sort_interp.get(&e.1) {
                None => {
                    return Err(migrate_error_exec(true, &e.1));
                },
                Some(vals) => {
                    let ghost before = carriers(out);
                    out.add_sort(e.0.as_str(), copy_values(vals));
                    proof {
                        assert forall|k: Seq<char>| #[trigger] carriers(out).contains_key(k) <==> exists|j: int|
                            0 <= j < i + 1 && live_at(vs, j) && (#[trigger] vs[j]).0 == k by {
                            if k == vs[i as int].0 {
                                assert(vs[i as int].0 == k);
                            }
                            if exists|j: int| 0 <= j < i + 1 && live_at(vs, j) && (#[trigger] vs[j]).0 == k {
                                let j = choose|j: int| 0 <= j < i + 1 && live_at(vs, j) && (#[trigger] vs[j]).0 == k;
                                if j < i {
                                    assert(before.contains_key(k));
                                }
                            }
                        }
                    }
                },
            }
        } else {
            proof {
                assert forall|k: Seq<char>| #[trigger] carriers(out).contains_key(k) <==> exists|j: int|
                    0 <= j < i + 1 && live_at(vs, j) && (#[trigger] vs[j]).0 == k by {
                    if exists|j: int| 0 <= j < i + 1 && live_at(vs, j) && (#[trigger] vs[j]).0 == k {
                        let j = choose|j: int| 0 <= j < i + 1 && live_at(vs, j) && (#[trigger] vs[j]).0 == k;
                        assert(j < i);
                    }
                }
            }
        }
        i = i + 1;
    }
    proof {
        assert forall|k: Seq<char>| #[trigger] carriers(out).contains_key(k) <==> morphism.sort_map@.contains_key(k) by {
            if morphism.sort_map@.contains_key(k) {
                let j = choose|j: int| 0 <= j < vs.len() && live_at(vs, j) && (#[trigger] vs[j]).0 == k;
            }
        }
        assert(carriers(out) =~= rekeyed(morphism.sort_map@, cs));
    }
    let ghost ws = entry_views(morphism.op_map.entries@);
    let ghost ts = tables(*model);
    let ghost sorts_done = carriers(out);
    let mut i: usize = 0;
    while i < morphism.op_map.entries.len()
        invariant
            ws == entry_views(morphism.op_map.entries@),
            ts == tables(*model),
            i <= ws.len(),
            out.theory@ == model.theory@,
            vs == entry_views(morphism.sort_map.entries@),
            cs == carriers(*model),
            first_unmapped(vs, cs, 0) is None,
            first_unmapped(ws, ts, i as int) == first_unmapped(ws, ts, 0),
            carriers(out) == sorts_done,
            sorts_done == rekeyed(morphism.sort_map@, cs),
            forall|k: Seq<char>| #[trigger] tables(out).contains_key(k) <==> exists|j: int|
                0 <= j < i && live_at(ws, j) && (#[trigger] ws[j]).0 == k,
            forall|k: Seq<char>| #[trigger] tables(out).contains_key(k) ==> tables(out)[k] == ts[morphism.op_map@[k]]
                && morphism.op_map@.contains_key(k),
            forall|j: int| 0 <= j < ws.len() && live_at(ws, j) ==> morphism.op_map@.contains_key((#[trigger] ws[j]).0)
                && morphism.op_map@[ws[j].0] == ws[j].1,
        decreases ws.len() - i,
    {
        let live = morphism.op_map.is_live(i);
        proof {
            crate::maps::lemma_live_views(morphism.op_map.entries@, i as int);
        }
        if live {
            let e = &morphism.op_map.entries[i];
            match model.op_interp.get(&e.1) {
                None => {
                    proof {
                        assert(ws[i as int].1 == e.1@);
                        assert(!ts.contains_key(e.1@));
                        assert(first_unmapped(ws, ts, i as int) == Some(e.1@));
                    }
                    return Err(migrate_error_exec(false, &e.1));
                },
                Some(rows) => {
                    let ghost before = tables(out);
                    out.add_op(e.0.as_str(), copy_rows(rows));
                    proof {
                        assert forall|k: Seq<char>| #[trigger] tables(out).contains_key(k) <==> exists|j: int|
                            0 <= j < i + 1 && live_at(ws, j) && (#[trigger] ws[j]).0 == k by {
                            if k == ws[i as int].0 {
                                assert(ws[i as int].0 == k);
                            }
                            if exists|j: int| 0 <= j < i + 1 && live_at(ws, j) && (#[trigger] ws[j]).0 == k {
                                let j = choose|j: int| 0 <= j < i + 1 && live_at(ws, j) && (#[trigger] ws[j]).0 == k;
                                if j < i {
                                    assert(before.contains_key(k));
                                }
                            }
                        }
                    }
                },
            }
        } else {
            proof {
                assert forall|k: Seq<char>| #[trigger] tables(out).contains_key(k) <==> exists|j: int|
                    0 <= j < i + 1 && live_at(ws, j) && (#[trigger] ws[j]).0 == k by {
                    if exists|j: int| 0 <= j < i + 1 && live_at(ws, j) && (#[trigger] ws[j]).0 == k {
                        let j = choose|j: int| 0 <= j < i + 1 && live_at(ws, j) && (#[trigger] ws[j]).0 == k;
                        assert(j < i);
                    }
                }
            }
        }
        i = i + 1;
    }
    proof {
        assert forall|k: Seq<char>| #[trigger] tables(out).contains_key(k) <==> morphism.op_map@.contains_key(k) by {
            if morphism.op_map@.contains_key(k) {
                let j = choose|j: int| 0 <= j < ws.len() && live_at(ws, j) && (#[trigger] ws[j]).0 == k;
            }
        }
        assert(tables(out) =~= rekeyed(morphism.op_map@, ts));
    }
    Ok(out)
}

/// Whether two values are the same value.
pub fn value_eq(a: &ModelValue, b: &ModelValue) -> (r: bool)
    ensures
        r == (a@ == b@),
    decreases a,
{
    match (a, b) {
        (ModelValue::Str(x), ModelValue::Str(y)) => {
            let r = *x == *y;
            proof {
                assert(r == (x@ == y@));
            }
            r
        },
        (ModelValue::Int(x), ModelValue::Int(y)) => *x == *y,
        (ModelValue::Bool(x), ModelValue::Bool(y)) => *x == *y,
        (ModelValue::Null, ModelValue::Null) => true,
        (ModelValue::List(x), ModelValue::List(y)) => {
            let r = values_eq(x, y);
            proof {
                assert(a@->List_0 =~= values_view(x@));
                assert(b@->List_0 =~= values_view(y@));
            }
            r
        },
        (ModelValue::Record(x), ModelValue::Record(y)) => {
            let r = records_eq(x, y);
            proof {
                lemma_record_map(*a);
                lemma_record_map(*b);
            }
            r
        },
        _ => false,
    }
}

/// Whether two lists of values are the same, value by value.
pub fn values_eq(a: &Vec<ModelValue>, b: &Vec<ModelValue>) -> (r: bool)
    ensures
        r == (values_view(a@) == values_view(b@)),
    decreases a,
{
    if a.len() != b.len() {
        proof {
            assert(values_view(a@).len() != values_view(b@).len());
        }
        return false;
    }
    let mut i: usize = 0;
    while i < a.len()
        invariant
            a@.len() == b@.len(),
            i <= a@.len(),
            forall|j: int| 0 <= j < i ==> #[trigger] a@[j]@ == b@[j]@,
        decreases a@.len() - i,
    {
        proof {
            assert(decreases_to!(a => a@[i as int]));
        }
        if !value_eq(&a[i], &b[i]) {
            proof {
                assert(values_view(a@)[i as int] != values_view(b@)[i as int]);
            }
            return false;
        }
        i = i + 1;
    }
    assert(values_view(a@) =~= values_view(b@));
    true
}

/// The value of the last entry named `k`, if any.
fn record_lookup<'a>(es: &'a Vec<(String, ModelValue)>, k: &String) -> (r: Option<&'a ModelValue>)
    ensures
        match r {
            Some(v) => entries_map(es@).contains_key(k@) && entries_map(es@)[k@] == v@,
            None => !entries_map(es@).contains_key(k@),
        },
{
    let mut i: usize = es.len();
    while i > 0
        invariant
            i <= es@.len(),
            forall|j: int| i <= j < es@.len() ==> #[trigger] es@[j].0@ != k@,
        decreases i,
    {
        i = i - 1;
        if es[i].0 == *k {
            proof {
                lemma_entries_map_last(es@, i as int, k@);
            }
            return Some(&es[i].1);
        }
    }
    proof {
        lemma_entries_map_dom(es@, k@);
    }
    None
}

/// Whether entry `i` is the last one with its name.
fn entry_is_live(es: &Vec<(String, ModelValue)>, i: usize) -> (b: bool)
    requires
        i < es@.len(),
    ensures
        b == entry_live(es@, i as int),
{
    let n = es.len();
    let mut j: usize = i + 1;
    while j < n
        invariant
            n == es@.len(),
            i < j <= es@.len(),
            forall|q: int| i < q < j ==> #[trigger] es@[q].0@ != es@[i as int].0@,
        decreases es@.len() - j,
    {
        if es[j].0 == es[i].0 {
            return false;
        }
        j = j + 1;
    }
    true
}

/// Whether two records are the same map from names to values, whatever
/// the order of their entries.
pub fn records_eq(a: &Vec<(String, ModelValue)>, b: &Vec<(String, ModelValue)>) -> (r: bool)
    ensures
        r == (entries_map(a@) == entries_map(b@)),
    decreases a,
{
    let ghost ma = entries_map(a@);
    let ghost mb = entries_map(b@);
    let mut i: usize = 0;
    while i < a.len()
        invariant
            ma == entries_map(a@),
            mb == entries_map(b@),
            i <= a@.len(),
            forall|p: int| 0 <= p < i && entry_live(a@, p) ==> mb.contains_key(#[trigger] a@[p].0@) && mb[a@[p].0@] == ma[a@[p].0@],
        decreases a@.len() - i,
    {
        proof {
            assert(decreases_to!(a => a@[i as int]));
            assert(decreases_to!(a@[i as int] => a@[i as int].1));
        }
        if entry_is_live(a, i) {
            proof {
                lemma_entries_map_last(a@, i as int, a@[i as int].0@);
            }
            match record_lookup(b, &a[i].0) {
                None => {
                    proof {
                        assert(ma.contains_key(a@[i as int].0@));
                    }
                    return false;
                },
                Some(v) => {
                    if !value_eq(&a[i].1, v) {
                        proof {
                            assert(ma[a@[i as int].0@] != mb[a@[i as int].0@]);
                        }
                        return false;
                    }
                },
            }
        }
        i = i + 1;
    }
    let mut j: usize = 0;
    while j < b.len()
        invariant
            ma == entries_map(a@),
            mb == entries_map(b@),
            j <= b@.len(),
            forall|p: int| 0 <= p < a@.len() && entry_live(a@, p) ==> mb.contains_key(#[trigger] a@[p].0@) && mb[a@[p].0@] == ma[a@[p].0@],
            forall|q: int| 0 <= q < j && entry_live(b@, q) ==> ma.contains_key(#[trigger] b@[q].0@),
        decreases b@.len() - j,
    {
        if entry_is_live(b, j) {
            proof {
                lemma_entries_map_last(b@, j as int, b@[j as int].0@);
            }
            match record_lookup(a, &b[j].0) {
                None => {
                    proof {
                        assert(mb.contains_key(b@[j as int].0@));
                    }
                    return false;
                },
                Some(_) => {},
            }
        }
        j = j + 1;
    }
    proof {
        assert forall|k: Seq<char>| #[trigger] ma.contains_key(k) implies mb.contains_key(k) && ma[k] == mb[k] by {
            lemma_entries_map_live(a@, k);
            let p = choose|p: int| 0 <= p < a@.len() && #[trigger] a@[p].0@ == k && entry_live(a@, p);
            assert(a@[p].0@ == k);
        }
        assert forall|k: Seq<char>| #[trigger] mb.contains_key(k) implies ma.contains_key(k) by {
            lemma_entries_map_live(b@, k);
            let q = choose|q: int| 0 <= q < b@.len() && #[trigger] b@[q].0@ == k && entry_live(b@, q);
            assert(b@[q].0@ == k);
        }
        assert(ma =~= mb);
    }
    true
}

/// The result of the first row from position `i` on whose arguments are
/// `args`.
pub open spec fn row_result(rows: Seq<(Seq<SModelValue>, SModelValue)>, args: Seq<SModelValue>, i: int) -> Option<SModelValue>
    decreases (if 0 <= i < rows.len() { rows.len() - i } else { 0 }) as nat,
{
    if 0 <= i < rows.len() {
        if rows[i].0 == args {
            Some(rows[i].1)
        } else {
            row_result(rows, args, i + 1)
        }
    } else {
        None
    }
}

/// The error for arguments that an operation's table has no row for.
pub open spec fn undefined_error(op: Seq<char>) -> SGatError {
    SGatError::ModelError("operation '"@ + op + "' is not defined on the given arguments"@)
}

impl TableModel {
    /// Evaluate an operation on arguments: the result of the first row of
    /// its table with those arguments. An operation without a table is
    /// `OpNotFound`; arguments without a row are a model error.
    pub fn eval(&self, op_name: &str, args: &Vec<ModelValue>) -> (r: Result<ModelValue, GatError>)
        ensures
            !tables(*self).contains_key(op_name@) ==> (r matches Err(e) && e@ == SGatError::OpNotFound(op_name@)),
            tables(*self).contains_key(op_name@) ==> match row_result(tables(*self)[op_name@], values_view(args@), 0) {
                Some(v) => r matches Ok(x) && x@ == v,
                None => r matches Err(e) && e@ == undefined_error(op_name@),
            },
    {
        let key = op_name.to_owned();
        let rows = match self.op_interp.get(&key) {
            Some(t) => t,
            None => {
                return Err(GatError::OpNotFound(key));
            },
        };
        let ghost rv = rows_view(rows@);
        assert(key@ == op_name@);
        let mut i: usize = 0;
        while i < rows.len()
            invariant
                rv == rows_view(rows@),
                tables(*self).contains_key(op_name@),
                tables(*self)[op_name@] == rv,
                i <= rows@.len(),
                row_result(rv, values_view(args@), i as int) == row_result(rv, values_view(args@), 0),
            decreases rows@.len() - i,
        {
            if values_eq(&rows[i].0, args) {
                proof {
                    assert(rv[i as int] == row_view(rows@[i as int]));
                }
                return Ok(rows[i].1.deep_copy());
            }
            i = i + 1;
        }
        proof {
            reveal_strlit("operation '");
            reveal_strlit("' is not defined on the given arguments");
        }
        let mut msg = String::new();
        msg.append("operation '");
        msg.append(op_name);
        msg.append("' is not defined on the given arguments");
        proof {
            assert(msg@ =~= "operation '"@ + op_name@ + "' is not defined on the given arguments"@);
        }
        Err(GatError::ModelError(msg))
    }
}

} // verus!
