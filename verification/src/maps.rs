//! Finite maps keyed by names.
//!
//! A [`NameMap`] is an association list; later entries shadow earlier ones
//! with the same key, so its model is the fold of `insert` over the entries.
use vstd::prelude::*;

use crate::term::{STerm, Term};

verus! {

/// A finite map from names to values, kept as an association list.
#[derive(Debug)]
pub struct NameMap<V> {
    /// The entries, oldest first; a later entry shadows an earlier one
    /// with the same key.
    pub entries: Vec<(String, V)>,
}

/// A substitution: variable name to term.
pub type Subst = NameMap<Term>;

/// A renaming: name to name.
pub type RenameMap = NameMap<String>;

/// The map denoted by a list of entries.
pub open spec fn entries_map<V: View>(es: Seq<(String, V)>) -> Map<Seq<char>, V::V>
    decreases es.len(),
{
    if es.len() == 0 {
        Map::empty()
    } else {
        entries_map(es.drop_last()).insert(es.last().0@, es.last().1@)
    }
}

impl<V: View> View for NameMap<V> {
    type V = Map<Seq<char>, V::V>;

    open spec fn view(&self) -> Map<Seq<char>, V::V> {
        entries_map(self.entries@)
    }
}

/// The denoted map has exactly the keys of the entries.
pub proof fn lemma_entries_map_dom<V: View>(es: Seq<(String, V)>, k: Seq<char>)
    ensures
        entries_map(es).contains_key(k) <==> exists|i: int| 0 <= i < es.len() && #[trigger] es[i].0@ == k,
    decreases es.len(),
{
    if es.len() > 0 {
        lemma_entries_map_dom(es.drop_last(), k);
        if entries_map(es).contains_key(k) && es.last().0@ != k {
            let i = choose|i: int| 0 <= i < es.drop_last().len() && #[trigger] es.drop_last()[i].0@ == k;
            assert(es[i].0@ == k);
        }
        if exists|i: int| 0 <= i < es.len() && #[trigger] es[i].0@ == k {
            let i = choose|i: int| 0 <= i < es.len() && #[trigger] es[i].0@ == k;
            if i < es.len() - 1 {
                assert(es.drop_last()[i].0@ == k);
            }
        }
    }
}

/// Entry `i` is not shadowed by a later entry with the same key.
pub open spec fn entry_live<V: View>(es: Seq<(String, V)>, i: int) -> bool {
    forall|j: int| i < j < es.len() ==> #[trigger] es[j].0@ != es[i].0@
}

/// Every key of the denoted map has a live entry.
pub proof fn lemma_entries_map_live<V: View>(es: Seq<(String, V)>, k: Seq<char>)
    requires
        entries_map(es).contains_key(k),
    ensures
        exists|i: int| 0 <= i < es.len() && #[trigger] es[i].0@ == k && entry_live(es, i),
    decreases es.len(),
{
    if es.last().0@ == k {
        assert(es[es.len() - 1].0@ == k && entry_live(es, es.len() - 1));
    } else {
        lemma_entries_map_live(es.drop_last(), k);
        let i = choose|i: int| 0 <= i < es.drop_last().len() && #[trigger] es.drop_last()[i].0@ == k && entry_live(es.drop_last(), i);
        assert(es[i].0@ == k);
        assert forall|j: int| i < j < es.len() implies #[trigger] es[j].0@ != es[i].0@ by {
            if j < es.len() - 1 {
                assert(es.drop_last()[j].0@ != es.drop_last()[i].0@);
            }
        }
    }
}

/// The denoted map is finite.
pub proof fn lemma_entries_map_finite<V: View>(es: Seq<(String, V)>)
    ensures
        entries_map(es).dom().finite(),
    decreases es.len(),
{
    if es.len() > 0 {
        lemma_entries_map_finite(es.drop_last());
    }
}

/// If entry `i` has key `k` and no later entry does, the map sends `k` to
/// the value of entry `i`.
pub proof fn lemma_entries_map_last<V: View>(es: Seq<(String, V)>, i: int, k: Seq<char>)
    requires
        0 <= i < es.len(),
        es[i].0@ == k,
        forall|j: int| i < j < es.len() ==> #[trigger] es[j].0@ != k,
    ensures
        entries_map(es).contains_key(k),
        entries_map(es)[k] == es[i].1@,
    decreases es.len(),
{
    if i < es.len() - 1 {
        assert forall|j: int| i < j < es.drop_last().len() implies #[trigger] es.drop_last()[j].0@ != k by {
            assert(es[j].0@ != k);
        }
        lemma_entries_map_last(es.drop_last(), i, k);
        assert(es[es.len() - 1].0@ != k);
    }
}

impl<V: View> NameMap<V> {
    /// An empty map.
    pub fn new() -> (m: Self)
        ensures
            m@ == Map::<Seq<char>, V::V>::empty(),
            m.entries@.len() == 0,
    {
        NameMap { entries: Vec::new() }
    }

    /// Number of stored entries.
    pub fn len(&self) -> (n: usize)
        ensures
            n == self.entries@.len(),
    {
        self.entries.len()
    }

    /// Whether the map is empty.
    pub fn is_empty(&self) -> (b: bool)
        ensures
            b == (self@ == Map::<Seq<char>, V::V>::empty()),
    {
        proof {
            if self.entries@.len() > 0 {
                let k = self.entries@[0].0@;
                lemma_entries_map_dom(self.entries@, k);
                assert(self@.contains_key(k));
            }
        }
        self.entries.len() == 0
    }

    /// Look up a key.
    pub fn get(&self, k: &String) -> (r: Option<&V>)
        ensures
            match r {
                Some(v) => self@.contains_key(k@) && self@[k@] == v@,
                None => !self@.contains_key(k@),
            },
    {
        let mut i: usize = self.entries.len();
        while i > 0
            invariant
                i <= self.entries@.len(),
                forall|j: int| i <= j < self.entries@.len() ==> #[trigger] self.entries@[j].0@ != k@,
            decreases i,
        {
            i = i - 1;
            if self.entries[i].0 == *k {
                proof {
                    lemma_entries_map_last(self.entries@, i as int, k@);
                }
                return Some(&self.entries[i].1);
            }
        }
        proof {
            lemma_entries_map_dom(self.entries@, k@);
        }
        None
    }

    /// Whether entry `i` is live (not shadowed by a later entry).
    pub fn is_live(&self, i: usize) -> (b: bool)
        requires
            i < self.entries@.len(),
        ensures
            b == entry_live(self.entries@, i as int),
    {
        let n = self.entries.len();
        let mut j: usize = i + 1;
        while j < n
            invariant
                n == self.entries@.len(),
                i < j <= self.entries@.len(),
                forall|q: int| i < q < j ==> #[trigger] self.entries@[q].0@ != self.entries@[i as int].0@,
            decreases self.entries@.len() - j,
        {
            if self.entries[j].0 == self.entries[i].0 {
                return false;
            }
            j = j + 1;
        }
        true
    }

    /// Whether the key is present.
    pub fn contains_key(&self, k: &String) -> (b: bool)
        ensures
            b == self@.contains_key(k@),
    {
        self.get(k).is_some()
    }

    /// Insert (or shadow) a binding.
    pub fn insert(&mut self, k: String, v: V)
        ensures
            final(self)@ == old(self)@.insert(k@, v@),
            final(self).entries@ == old(self).entries@.push((k, v)),
    {
        self.entries.push((k, v));
        proof {
            assert(final(self).entries@.drop_last() =~= old(self).entries@);
        }
    }
}

/// Removing an entry with key `k` does not change the map away from `k`.
pub proof fn lemma_entries_map_remove_entry<V: View>(es: Seq<(String, V)>, i: int, k: Seq<char>)
    requires
        0 <= i < es.len(),
        es[i].0@ == k,
    ensures
        entries_map(es.remove(i)).remove(k) == entries_map(es).remove(k),
    decreases es.len(),
{
    if i == es.len() - 1 {
        assert(es.remove(i) =~= es.drop_last());
        assert(entries_map(es.remove(i)).remove(k) =~= entries_map(es).remove(k));
    } else {
        lemma_entries_map_remove_entry(es.drop_last(), i, k);
        let r = es.remove(i);
        assert(r.drop_last() =~= es.drop_last().remove(i));
        assert(r.last() == es.last());
        let a = entries_map(es.drop_last().remove(i));
        let b = entries_map(es.drop_last());
        assert(a.remove(k) == b.remove(k));
        assert(entries_map(r) == a.insert(es.last().0@, es.last().1@));
        assert(entries_map(es) == b.insert(es.last().0@, es.last().1@));
        let kl = es.last().0@;
        let vl = es.last().1@;
        let lhs = a.insert(kl, vl).remove(k);
        let rhs = b.insert(kl, vl).remove(k);
        assert forall|x: Seq<char>| #[trigger] lhs.contains_key(x) == rhs.contains_key(x) by {
            if x != k && x != kl {
                assert(a.remove(k).contains_key(x) == a.contains_key(x));
                assert(b.remove(k).contains_key(x) == b.contains_key(x));
            }
        }
        assert forall|x: Seq<char>| #[trigger] lhs.contains_key(x) implies lhs[x] == rhs[x] by {
            if x != kl {
                assert(a.remove(k).contains_key(x) == a.contains_key(x));
                assert(a.remove(k)[x] == a[x]);
                assert(b.remove(k)[x] == b[x]);
            }
        }
        assert(a.insert(kl, vl).remove(k) =~= b.insert(kl, vl).remove(k));
    }
}

impl<V: View> NameMap<V> {
    /// Remove every binding of `k`.
    pub fn remove(&mut self, k: &String)
        ensures
            final(self)@ == old(self)@.remove(k@),
    {
        let mut i: usize = self.entries.len();
        while i > 0
            invariant
                i <= self.entries@.len(),
                forall|j: int| i <= j < self.entries@.len() ==> #[trigger] self.entries@[j].0@ != k@,
                entries_map(self.entries@).remove(k@) == entries_map(old(self).entries@).remove(k@),
            decreases i,
        {
            i = i - 1;
            if self.entries[i].0 == *k {
                proof {
                    lemma_entries_map_remove_entry(self.entries@, i as int, k@);
                }
                let ghost prev = self.entries@;
                self.entries.remove(i);
                assert forall|j: int| i <= j < self.entries@.len() implies #[trigger] self.entries@[j].0@ != k@ by {
                    assert(self.entries@[j] == prev[j + 1]);
                }
            }
        }
        proof {
            lemma_entries_map_dom(self.entries@, k@);
            assert(entries_map(self.entries@).remove(k@) =~= entries_map(self.entries@));
        }
    }
}

impl NameMap<Term> {
    /// A structural copy of this substitution.
    pub fn deep_copy(&self) -> (r: Self)
        ensures
            r@ == self@,
            r.entries@.len() == self.entries@.len(),
            forall|i: int| 0 <= i < self.entries@.len() ==> #[trigger] r.entries@[i].0@ == self.entries@[i].0@ && r.entries@[i].1@ == self.entries@[i].1@,
    {
        let mut es: Vec<(String, Term)> = Vec::new();
        let mut i: usize = 0;
        while i < self.entries.len()
            invariant
                i <= self.entries@.len(),
                es@.len() == i,
                forall|j: int| 0 <= j < i ==> #[trigger] es@[j].0@ == self.entries@[j].0@ && es@[j].1@ == self.entries@[j].1@,
            decreases self.entries@.len() - i,
        {
            let e = &self.entries[i];
            let k = e.0.clone();
            let v = e.1.deep_copy();
            es.push((k, v));
            i = i + 1;
        }
        let r = NameMap { entries: es };
        proof {
            lemma_entries_map_pointwise(r.entries@, self.entries@);
        }
        r
    }
}

impl NameMap<String> {
    /// A copy of this renaming.
    pub fn copy(&self) -> (r: Self)
        ensures
            r@ == self@,
            r.entries@.len() == self.entries@.len(),
            forall|i: int| 0 <= i < self.entries@.len() ==> #[trigger] r.entries@[i].0@ == self.entries@[i].0@ && r.entries@[i].1@ == self.entries@[i].1@,
    {
        let mut es: Vec<(String, String)> = Vec::new();
        let mut i: usize = 0;
        while i < self.entries.len()
            invariant
                i <= self.entries@.len(),
                es@.len() == i,
                forall|j: int| 0 <= j < i ==> #[trigger] es@[j].0@ == self.entries@[j].0@ && es@[j].1@ == self.entries@[j].1@,
            decreases self.entries@.len() - i,
        {
            let e = &self.entries[i];
            es.push((e.0.clone(), e.1.clone()));
            i = i + 1;
        }
        let r = NameMap { entries: es };
        proof {
            lemma_entries_map_pointwise(r.entries@, self.entries@);
        }
        r
    }

    /// Look up `k`, returning `k` itself when it is unmapped.
    pub fn lookup_or_same(&self, k: &String) -> (r: String)
        ensures
            r@ == map_name(self@, k@),
    {
        match self.get(k) {
            Some(v) => v.clone(),
            None => k.clone(),
        }
    }
}

/// The image of a name under a renaming, or the name itself when unmapped.
pub open spec fn map_name(m: Map<Seq<char>, Seq<char>>, n: Seq<char>) -> Seq<char> {
    if m.contains_key(n) {
        m[n]
    } else {
        n
    }
}

/// Two entry lists with the same keys and value views denote the same map.
pub proof fn lemma_entries_map_pointwise<V: View>(a: Seq<(String, V)>, b: Seq<(String, V)>)
    requires
        a.len() == b.len(),
        forall|i: int| 0 <= i < a.len() ==> #[trigger] a[i].0@ == b[i].0@ && a[i].1@ == b[i].1@,
    ensures
        entries_map(a) == entries_map(b),
    decreases a.len(),
{
    if a.len() > 0 {
        lemma_entries_map_pointwise(a.drop_last(), b.drop_last());
        assert(a.last().0@ == b.last().0@);
    }
}

/// Equality of two string slices by content.
pub fn str_eq(a: &str, b: &str) -> (r: bool)
    ensures
        r == (a@ == b@),
{
    let x = a.to_owned();
    let y = b.to_owned();
    x == y
}

/// A finite set of names without repetitions.
#[derive(Debug)]
pub struct NameSet {
    names: Vec<String>,
}

/// The set of names held in a list.
pub open spec fn names_set(v: Seq<String>) -> Set<Seq<char>> {
    Set::new(|n: Seq<char>| exists|i: int| 0 <= i < v.len() && #[trigger] v[i]@ == n)
}

/// The names of a list are pairwise distinct.
pub open spec fn names_distinct(v: Seq<String>) -> bool {
    forall|i: int, j: int| 0 <= i < v.len() && 0 <= j < v.len() && i != j ==> #[trigger] v[i]@ != #[trigger] v[j]@
}

/// A list of distinct names has as many elements as its set.
pub proof fn lemma_names_set_len(v: Seq<String>)
    requires
        names_distinct(v),
    ensures
        names_set(v).finite(),
        names_set(v).len() == v.len(),
    decreases v.len(),
{
    if v.len() == 0 {
        assert(names_set(v) =~= Set::empty());
    } else {
        let w = v.drop_last();
        lemma_names_set_len(w);
        assert forall|x: Seq<char>| #[trigger] names_set(v).contains(x) == names_set(w).insert(v.last()@).contains(x) by {
            if names_set(v).contains(x) && x != v.last()@ {
                let i = choose|i: int| 0 <= i < v.len() && #[trigger] v[i]@ == x;
                assert(w[i]@ == x);
            }
            if names_set(w).contains(x) {
                let i = choose|i: int| 0 <= i < w.len() && #[trigger] w[i]@ == x;
                assert(v[i]@ == x);
            }
            assert(v[v.len() - 1]@ == v.last()@);
        }
        assert(names_set(v) =~= names_set(w).insert(v.last()@));
        assert(!names_set(w).contains(v.last()@)) by {
            if names_set(w).contains(v.last()@) {
                let i = choose|i: int| 0 <= i < w.len() && #[trigger] w[i]@ == v.last()@;
                assert(v[i]@ == v[v.len() - 1]@);
            }
        }
    }
}

impl NameSet {
    /// The stored names are pairwise distinct.
    pub closed spec fn wf(&self) -> bool {
        names_distinct(self.names@)
    }

    /// The set of names held.
    pub closed spec fn view(&self) -> Set<Seq<char>> {
        names_set(self.names@)
    }

    /// An empty set.
    pub fn new() -> (s: NameSet)
        ensures
            s.view() == Set::<Seq<char>>::empty(),
            s.wf(),
    {
        let s = NameSet { names: Vec::new() };
        assert(s.view() =~= Set::<Seq<char>>::empty());
        s
    }

    /// Membership by name.
    pub fn contains(&self, n: &str) -> (b: bool)
        ensures
            b == self.view().contains(n@),
    {
        let mut i: usize = 0;
        while i < self.names.len()
            invariant
                i <= self.names@.len(),
                forall|j: int| 0 <= j < i ==> #[trigger] self.names@[j]@ != n@,
            decreases self.names@.len() - i,
        {
            if str_eq(self.names[i].as_str(), n) {
                return true;
            }
            i = i + 1;
        }
        false
    }

    /// Number of names held.
    pub fn len(&self) -> (n: usize)
        requires
            self.wf(),
        ensures
            self.view().finite(),
            n == self.view().len(),
    {
        proof {
            lemma_names_set_len(self.names@);
        }
        self.names.len()
    }

    /// Add a name.
    pub fn insert(&mut self, n: String)
        requires
            old(self).wf(),
        ensures
            final(self).view() == old(self).view().insert(n@),
            final(self).wf(),
    {
        if !self.contains(n.as_str()) {
            let ghost prev = self.names@;
            self.names.push(n);
            proof {
                assert forall|i: int, j: int| 0 <= i < self.names@.len() && 0 <= j < self.names@.len() && i != j implies #[trigger] self.names@[i]@ != #[trigger] self.names@[j]@ by {
                    if i < prev.len() && j < prev.len() {
                        assert(self.names@[i] == prev[i]);
                        assert(self.names@[j] == prev[j]);
                    } else if i < prev.len() {
                        assert(self.names@[i] == prev[i]);
                    } else {
                        assert(self.names@[j] == prev[j]);
                    }
                }
            }
            assert forall|x: Seq<char>| #[trigger] names_set(self.names@).contains(x) == old(self).view().insert(n@).contains(x) by {
                if names_set(prev).contains(x) {
                    let i = choose|i: int| 0 <= i < prev.len() && #[trigger] prev[i]@ == x;
                    assert(self.names@[i]@ == x);
                }
                if names_set(self.names@).contains(x) && x != n@ {
                    let i = choose|i: int| 0 <= i < self.names@.len() && #[trigger] self.names@[i]@ == x;
                    assert(prev[i]@ == x);
                }
                assert(self.names@[prev.len() as int]@ == n@);
            }
            assert(self.view() =~= old(self).view().insert(n@));
        } else {
            assert(self.view() =~= old(self).view().insert(n@));
        }
    }

    /// Add every name of another set.
    pub fn extend(&mut self, other: &NameSet)
        requires
            old(self).wf(),
        ensures
            final(self).view() == old(self).view().union(other.view()),
            final(self).wf(),
    {
        let mut i: usize = 0;
        while i < other.names.len()
            invariant
                i <= other.names@.len(),
                self.wf(),
                self.view() == old(self).view().union(names_set(other.names@.take(i as int))),
            decreases other.names@.len() - i,
        {
            let ghost before = self.view();
            self.insert(other.names[i].clone());
            proof {
                assert(names_set(other.names@.take(i + 1)) =~= names_set(other.names@.take(i as int)).insert(other.names@[i as int]@)) by {
                    assert forall|x: Seq<char>| #[trigger] names_set(other.names@.take(i + 1)).contains(x) implies names_set(other.names@.take(i as int)).insert(other.names@[i as int]@).contains(x) by {
                        let j = choose|j: int| 0 <= j < other.names@.take(i + 1).len() && #[trigger] other.names@.take(i + 1)[j]@ == x;
                        if j < i {
                            assert(other.names@.take(i as int)[j]@ == x);
                        }
                    }
                    assert forall|x: Seq<char>| #[trigger] names_set(other.names@.take(i as int)).contains(x) implies names_set(other.names@.take(i + 1)).contains(x) by {
                        let j = choose|j: int| 0 <= j < other.names@.take(i as int).len() && #[trigger] other.names@.take(i as int)[j]@ == x;
                        assert(other.names@.take(i + 1)[j]@ == x);
                    }
                    assert(other.names@.take(i + 1)[i as int]@ == other.names@[i as int]@);
                }
                assert(self.view() =~= old(self).view().union(names_set(other.names@.take(i + 1))));
            }
            i = i + 1;
        }
        assert(other.names@.take(other.names@.len() as int) =~= other.names@);
    }

    /// Remove a name.
    pub fn remove(&mut self, n: &str)
        requires
            old(self).wf(),
        ensures
            final(self).view() == old(self).view().remove(n@),
            final(self).wf(),
    {
        let mut i: usize = 0;
        while i < self.names.len()
            invariant
                i <= self.names@.len(),
                self.names@ == old(self).names@,
                names_distinct(old(self).names@),
                forall|j: int| 0 <= j < i ==> #[trigger] self.names@[j]@ != n@,
            decreases self.names@.len() - i,
        {
            if str_eq(self.names[i].as_str(), n) {
                let ghost prev = self.names@;
                self.names.remove(i);
                proof {
                    assert forall|a: int, b: int| 0 <= a < self.names@.len() && 0 <= b < self.names@.len() && a != b implies #[trigger] self.names@[a]@ != #[trigger] self.names@[b]@ by {
                        let pa = if a < i { a } else { a + 1 };
                        let pb = if b < i { b } else { b + 1 };
                        assert(self.names@[a] == prev[pa]);
                        assert(self.names@[b] == prev[pb]);
                    }
                    assert forall|x: Seq<char>| #[trigger] names_set(self.names@).contains(x) == old(self).view().remove(n@).contains(x) by {
                        if names_set(self.names@).contains(x) {
                            let a = choose|a: int| 0 <= a < self.names@.len() && #[trigger] self.names@[a]@ == x;
                            let pa = if a < i { a } else { a + 1 };
                            assert(self.names@[a] == prev[pa]);
                            assert(pa != i);
                        }
                        if old(self).view().remove(n@).contains(x) {
                            let a = choose|a: int| 0 <= a < prev.len() && #[trigger] prev[a]@ == x;
                            assert(a != i);
                            let na = if a < i { a } else { a - 1 };
                            assert(self.names@[na] == prev[a]);
                        }
                    }
                    assert(self.view() =~= old(self).view().remove(n@));
                }
                return;
            }
            i = i + 1;
        }
        assert(self.view() =~= old(self).view().remove(n@));
    }

    /// Number of stored names, for iteration.
    pub fn size(&self) -> (n: usize)
        ensures
            n == self.spec_size(),
    {
        self.names.len()
    }

    /// The number of stored names.
    pub closed spec fn spec_size(&self) -> nat {
        self.names@.len()
    }

    /// The name at a position, for iteration.
    pub closed spec fn spec_at(&self, i: int) -> Seq<char> {
        self.names@[i]@
    }

    /// The name at a position.
    pub fn at(&self, i: usize) -> (s: &String)
        requires
            i < self.spec_size(),
        ensures
            s@ == self.spec_at(i as int),
    {
        &self.names[i]
    }

    /// Iteration by position visits exactly the set.
    pub proof fn lemma_positions(&self)
        ensures
            forall|i: int| 0 <= i < self.spec_size() ==> self.view().contains(#[trigger] self.spec_at(i)),
            forall|x: Seq<char>| self.view().contains(x) ==> exists|i: int| 0 <= i < self.spec_size() && #[trigger] self.spec_at(i) == x,
    {
        assert forall|i: int| 0 <= i < self.spec_size() implies self.view().contains(#[trigger] self.spec_at(i)) by {
            assert(self.names@[i]@ == self.spec_at(i));
        }
        assert forall|x: Seq<char>| self.view().contains(x) implies exists|i: int| 0 <= i < self.spec_size() && #[trigger] self.spec_at(i) == x by {
            let i = choose|i: int| 0 <= i < self.names@.len() && #[trigger] self.names@[i]@ == x;
            assert(self.spec_at(i) == x);
        }
    }
}

/// Applying a function to every entry's value applies it to every value
/// of the denoted map.
pub proof fn lemma_entries_map_values(a: Seq<(String, Term)>, b: Seq<(String, Term)>, f: spec_fn(STerm) -> STerm)
    requires
        a.len() == b.len(),
        forall|i: int| 0 <= i < a.len() ==> #[trigger] b[i].0@ == a[i].0@ && b[i].1@ == f(a[i].1@),
    ensures
        entries_map(b) == Map::new(|k: Seq<char>| entries_map(a).contains_key(k), |k: Seq<char>| f(entries_map(a)[k])),
    decreases a.len(),
{
    if a.len() > 0 {
        lemma_entries_map_values(a.drop_last(), b.drop_last(), f);
        assert(b.last().0@ == a.last().0@);
        assert(entries_map(b) =~= Map::new(|k: Seq<char>| entries_map(a).contains_key(k), |k: Seq<char>| f(entries_map(a)[k])));
    } else {
        assert(entries_map(b) =~= Map::new(|k: Seq<char>| entries_map(a).contains_key(k), |k: Seq<char>| f(entries_map(a)[k])));
    }
}


/// The models of a renaming's entries.
pub open spec fn entry_views(es: Seq<(String, String)>) -> Seq<(Seq<char>, Seq<char>)> {
    Seq::new(es.len(), |i: int| (es[i].0@, es[i].1@))
}

/// No later entry has the same name as entry `i`.
pub open spec fn live_at(vs: Seq<(Seq<char>, Seq<char>)>, i: int) -> bool {
    forall|j: int| i < j < vs.len() ==> #[trigger] vs[j].0 != vs[i].0
}

/// An entry is live exactly when its name is not repeated later.
pub proof fn lemma_live_views(es: Seq<(String, String)>, i: int)
    requires
        0 <= i < es.len(),
    ensures
        entry_live(es, i) == live_at(entry_views(es), i),
{
    let vs = entry_views(es);
    if !entry_live(es, i) {
        let j = choose|j: int| i < j < es.len() && !(#[trigger] es[j].0@ != es[i].0@);
        assert(vs[j].0 == vs[i].0);
    }
    if !live_at(vs, i) {
        let j = choose|j: int| i < j < vs.len() && !(#[trigger] vs[j].0 != vs[i].0);
        assert(es[j].0@ == es[i].0@);
    }
}

/// The value a map gives a name, if any.
pub open spec fn lookup(m: Map<Seq<char>, Seq<char>>, k: Seq<char>) -> Option<Seq<char>> {
    if m.contains_key(k) {
        Some(m[k])
    } else {
        None
    }
}


/// The map denoted by a list of entry models; a later entry overrides.
pub open spec fn views_map(vs: Seq<(Seq<char>, Seq<char>)>) -> Map<Seq<char>, Seq<char>>
    decreases vs.len(),
{
    if vs.len() == 0 {
        Map::empty()
    } else {
        views_map(vs.drop_last()).insert(vs.last().0, vs.last().1)
    }
}

/// A renaming denotes the map of its entry models.
pub proof fn lemma_views_map(es: Seq<(String, String)>)
    ensures
        entries_map(es) == views_map(entry_views(es)),
    decreases es.len(),
{
    if es.len() > 0 {
        lemma_views_map(es.drop_last());
        assert(entry_views(es.drop_last()) =~= entry_views(es).drop_last());
    }
}

/// The names of the live entries from position `i` on, in order.
pub open spec fn live_keys(vs: Seq<(Seq<char>, Seq<char>)>, i: int) -> Seq<Seq<char>>
    decreases (if 0 <= i < vs.len() { vs.len() - i } else { 0 }) as nat,
{
    if 0 <= i < vs.len() {
        (if live_at(vs, i) {
            seq![vs[i].0]
        } else {
            Seq::empty()
        }) + live_keys(vs, i + 1)
    } else {
        Seq::empty()
    }
}

} // verus!
