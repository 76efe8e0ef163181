//! Identities of theory elements, names, and site-qualified renames.
use vstd::prelude::*;
use vstd::std_specs::cmp::{PartialEqSpecImpl, PartialOrdSpecImpl};
use core::cmp::Ordering;
use core::hash::{Hash, Hasher};

verus! {

/// A scope in which identities are minted: two identities are equal only
/// when their scopes (and indices) agree.
#[derive(Debug, Clone, Copy, PartialEq, Eq, Structural, Hash, PartialOrd, Ord)]
pub struct ScopeTag(pub u32);

/// A source of fresh scope tags: each tag it hands out is the previous
/// one plus one (wrapping), starting after the legacy scope.
#[derive(Debug)]
pub struct ScopeSupply {
    /// The raw value of the next tag.
    pub next: u32,
}

impl ScopeSupply {
    /// A supply whose first tag is 1.
    pub fn new() -> (s: ScopeSupply)
        ensures
            s.next == 1,
    {
        ScopeSupply { next: 1 }
    }
}

impl ScopeTag {
    /// The scope of identities converted from plain names.
    pub open spec fn legacy_spec() -> ScopeTag {
        ScopeTag(0)
    }

    /// The scope of identities converted from plain names.
    pub fn legacy() -> (r: ScopeTag)
        ensures
            r == ScopeTag::legacy_spec(),
    {
        ScopeTag(0)
    }

    /// The next tag of the supply.
    pub fn fresh(supply: &mut ScopeSupply) -> (r: ScopeTag)
        ensures
            r == ScopeTag(old(supply).next),
            final(supply).next == (if old(supply).next == u32::MAX { 0 } else { old(supply).next + 1 }),
    {
        let t = ScopeTag(supply.next);
        supply.next = supply.next.wrapping_add(1);
        t
    }

    /// A tag with the given raw value.
    pub fn from_raw(raw: u32) -> (r: ScopeTag)
        ensures
            r == ScopeTag(raw),
    {
        ScopeTag(raw)
    }
}

/// The digest that std's default hasher, created with `DefaultHasher::new`,
/// gives for a name fed to it with `Hash::hash`.
pub uninterp spec fn legacy_digest(name: Seq<char>) -> u64;

/// The low 32 bits of a digest.
pub open spec fn low_bits(digest: u64) -> u32 {
    (digest % 0x1_0000_0000) as u32
}

/// The index that the legacy conversion assigns to a name: the low 32
/// bits of its digest.
pub open spec fn legacy_index(name: Seq<char>) -> u32 {
    low_bits(legacy_digest(name))
}

/// The legacy index of a name whose digest is `digest`: its low 32 bits.
pub fn legacy_index_of(digest: u64) -> (r: u32)
    ensures
        r == low_bits(digest),
        r as int == digest as int % 0x1_0000_0000,
{
    (digest % 0x1_0000_0000) as u32
}

/// The digest of `name` by `DefaultHasher` (whose keys are fixed, so the
/// digest depends on the name alone).
#[verifier::external_body]
fn legacy_hash(name: &str) -> (r: u64)
    ensures
        r == legacy_digest(name@),
{
    let mut hasher = std::collections::hash_map::DefaultHasher::new();
    Hash::hash(name, &mut hasher);
    Hasher::finish(&hasher)
}

/// A stable identity with a display name: equality and order go by scope
/// and index only; the name is carried for display.
#[derive(Debug)]
pub struct Ident {
    /// The scope.
    pub scope: ScopeTag,
    /// The index within the scope.
    pub index: u32,
    /// The display name.
    pub name: String,
}

impl Ident {
    /// An identity.
    pub fn new(scope: ScopeTag, index: u32, name: &str) -> (r: Ident)
        ensures
            r.scope == scope,
            r.index == index,
            r.name@ == name@,
    {
        Ident { scope, index, name: name.to_owned() }
    }

    /// The same identity under another display name.
    pub fn renamed(&self, new_name: &str) -> (r: Ident)
        ensures
            r.scope == self.scope,
            r.index == self.index,
            r.name@ == new_name@,
    {
        Ident { scope: self.scope, index: self.index, name: new_name.to_owned() }
    }

    /// The identity of a plain name: the legacy scope and the name's
    /// legacy index.
    pub fn from_legacy(name: &str) -> (r: Ident)
        ensures
            r.scope == ScopeTag::legacy_spec(),
            r.index == legacy_index(name@),
            r.name@ == name@,
    {
        let d = legacy_hash(name);
        Ident { scope: ScopeTag(0), index: legacy_index_of(d), name: name.to_owned() }
    }

    /// The display name.
    pub fn as_str(&self) -> (r: &str)
        ensures
            r@ == self.name@,
    {
        self.name.as_str()
    }

    /// The display name, as a new string.
    pub fn to_string(&self) -> (r: String)
        ensures
            r@ == self.name@,
    {
        self.name.clone()
    }
}

/// The order of two identities: by scope, then by index.
pub open spec fn ident_cmp(a: Ident, b: Ident) -> Ordering {
    if a.scope.0 < b.scope.0 || (a.scope.0 == b.scope.0 && a.index < b.index) {
        Ordering::Less
    } else if a.scope.0 == b.scope.0 && a.index == b.index {
        Ordering::Equal
    } else {
        Ordering::Greater
    }
}

impl PartialEq for Ident {
    fn eq(&self, other: &Ident) -> (r: bool) {
        self.scope.0 == other.scope.0 && self.index == other.index
    }
}

impl Eq for Ident {

}

impl PartialEqSpecImpl for Ident {
    open spec fn obeys_eq_spec() -> bool {
        true
    }

    open spec fn eq_spec(&self, other: &Ident) -> bool {
        self.scope == other.scope && self.index == other.index
    }
}

impl PartialOrd for Ident {
    fn partial_cmp(&self, other: &Ident) -> (r: Option<Ordering>) {
        if self.scope.0 < other.scope.0 || (self.scope.0 == other.scope.0 && self.index < other.index) {
            Some(Ordering::Less)
        } else if self.scope.0 == other.scope.0 && self.index == other.index {
            Some(Ordering::Equal)
        } else {
            Some(Ordering::Greater)
        }
    }
}

impl PartialOrdSpecImpl for Ident {
    open spec fn obeys_partial_cmp_spec() -> bool {
        true
    }

    open spec fn partial_cmp_spec(&self, other: &Ident) -> Option<Ordering> {
        Some(ident_cmp(*self, *other))
    }
}

impl Clone for Ident {
    fn clone(&self) -> (r: Ident)
        ensures
            r.scope == self.scope,
            r.index == self.index,
            r.name@ == self.name@,
    {
        Ident { scope: self.scope, index: self.index, name: self.name.clone() }
    }
}

impl Hash for Ident {
    #[verifier::external_body]
    fn hash<H: Hasher>(&self, state: &mut H) {
        self.scope.hash(state);
        self.index.hash(state);
    }
}

/// An interned display name, compared by content.
#[derive(Debug, Clone, PartialEq, Eq, Hash, PartialOrd, Ord, Default)]
pub struct Name(pub String);

impl Name {
    /// A name.
    pub fn new(s: &str) -> (r: Name)
        ensures
            r.0@ == s@,
    {
        Name(s.to_owned())
    }

    /// The name's text.
    pub fn as_str(&self) -> (r: &str)
        ensures
            r@ == self.0@,
    {
        self.0.as_str()
    }

    /// The name's text, as a new string.
    pub fn to_string(&self) -> (r: String)
        ensures
            r@ == self.0@,
    {
        self.0.clone()
    }
}

/// The site at which a name occurs in a schema.
#[derive(Debug, Clone, Copy, PartialEq, Eq, Structural, Hash)]
pub enum NameSite {
    /// An edge label.
    EdgeLabel,
    /// A vertex identifier.
    VertexId,
    /// A vertex kind.
    VertexKind,
    /// An edge kind.
    EdgeKind,
    /// A namespace identifier.
    Nsid,
    /// A constraint sort.
    ConstraintSort,
    /// An instance anchor.
    InstanceAnchor,
    /// A theory name.
    TheoryName,
    /// A sort name.
    SortName,
}

/// A rename of a name at a site.
#[derive(Debug, PartialEq, Eq, Hash)]
pub struct SiteRename {
    /// Where the name occurs.
    pub site: NameSite,
    /// The old name.
    pub old: String,
    /// The new name.
    pub new: String,
}

impl SiteRename {
    /// A site rename.
    pub fn new(site: NameSite, old: &str, new: &str) -> (r: SiteRename)
        ensures
            r.site == site,
            r.old@ == old@,
            r.new@ == new@,
    {
        SiteRename { site, old: old.to_owned(), new: new.to_owned() }
    }
}

} // verus!
