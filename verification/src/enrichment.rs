//! Enrichments of schemas: layout sorts, layout roles of tokens, and the
//! spacing between adjacent tokens.
use vstd::prelude::*;
use vstd::string::*;
use std::collections::BTreeMap;

verus! {

/// A kind of enrichment whose sorts are recognized by name.
#[derive(Debug, Clone, Copy, PartialEq, Eq, Structural, Hash)]
pub enum EnrichmentKind {
    /// Layout information recorded by a parser walker.
    Layout,
}

/// `p` is a prefix of `s`.
pub open spec fn has_prefix(s: Seq<char>, p: Seq<char>) -> bool {
    p.len() <= s.len() && s.subrange(0, p.len() as int) == p
}

/// The layout sorts: `start-byte`, `end-byte`, and the sorts named
/// `chose-alt-…` or `interstitial-…`.
pub open spec fn layout_sort(s: Seq<char>) -> bool {
    s == "start-byte"@ || s == "end-byte"@ || has_prefix(s, "chose-alt-"@) || has_prefix(s, "interstitial-"@)
}

/// Whether `s` begins with `p`.
fn starts_with(s: &str, p: &str) -> (r: bool)
    ensures
        r == has_prefix(s@, p@),
{
    let n = p.unicode_len();
    let m = s.unicode_len();
    if n > m {
        return false;
    }
    let mut i: usize = 0;
    while i < n
        invariant
            n == p@.len(),
            m == s@.len(),
            n <= m,
            i <= n,
            forall|j: int| 0 <= j < i ==> s@[j] == p@[j],
        decreases n - i,
    {
        if s.get_char(i) != p.get_char(i) {
            assert(s@.subrange(0, n as int)[i as int] != p@[i as int]);
            return false;
        }
        i = i + 1;
    }
    assert(s@.subrange(0, n as int) =~= p@);
    true
}

/// Whether a sort name is a layout sort.
pub fn is_layout_sort(sort: &str) -> (r: bool)
    ensures
        r == layout_sort(sort@),
{
    crate::maps::str_eq(sort, "start-byte") || crate::maps::str_eq(sort, "end-byte") || starts_with(sort, "chose-alt-")
        || starts_with(sort, "interstitial-")
}

impl EnrichmentKind {
    /// Whether a sort belongs to this enrichment.
    pub fn is_member_sort(self, sort: &str) -> (r: bool)
        ensures
            r == match self {
                EnrichmentKind::Layout => layout_sort(sort@),
            },
    {
        match self {
            EnrichmentKind::Layout => is_layout_sort(sort),
        }
    }
}

/// The role of a token in layout.
#[derive(Debug, Clone, Copy, PartialEq, Eq, Structural, Hash)]
pub enum LayoutRole {
    /// An opening bracket.
    BracketOpen,
    /// A closing bracket.
    BracketClose,
    /// A separator.
    Separator,
    /// A keyword.
    Keyword,
    /// An operator.
    Operator,
    /// A connector that binds its neighbours.
    Connector,
    /// Any other terminal.
    Terminal,
    /// A token glued to both neighbours.
    Immediate,
}

/// The spacing between two adjacent tokens.
#[derive(Debug, Clone, Copy, PartialEq, Eq, Structural, Hash)]
pub enum Adjacency {
    /// No space.
    Tight,
    /// One space.
    Space,
    /// A line break.
    Break,
}

/// The spacing between tokens with roles `prev` and `next`: tight after
/// an immediate token, an opening bracket or a connector; tight before an
/// immediate token, a closing bracket, a separator or a connector; tight
/// between a terminal or closing bracket and an opening bracket; a space
/// otherwise.
pub open spec fn adjacency_between(prev: LayoutRole, next: LayoutRole) -> Adjacency {
    if prev == LayoutRole::Immediate || prev == LayoutRole::BracketOpen || prev == LayoutRole::Connector {
        Adjacency::Tight
    } else if next == LayoutRole::Immediate || next == LayoutRole::BracketClose || next == LayoutRole::Separator
        || next == LayoutRole::Connector {
        Adjacency::Tight
    } else if (prev == LayoutRole::Terminal || prev == LayoutRole::BracketClose) && next == LayoutRole::BracketOpen {
        Adjacency::Tight
    } else {
        Adjacency::Space
    }
}

impl Adjacency {
    /// The spacing between tokens with roles `prev` and `next`.
    pub fn between(prev: LayoutRole, next: LayoutRole) -> (r: Adjacency)
        ensures
            r == adjacency_between(prev, next),
    {
        match prev {
            LayoutRole::Immediate | LayoutRole::BracketOpen | LayoutRole::Connector => Adjacency::Tight,
            _ => match next {
                LayoutRole::Immediate | LayoutRole::BracketClose | LayoutRole::Separator | LayoutRole::Connector => Adjacency::Tight,
                LayoutRole::BracketOpen => match prev {
                    LayoutRole::Terminal | LayoutRole::BracketClose => Adjacency::Tight,
                    _ => Adjacency::Space,
                },
                _ => Adjacency::Space,
            },
        }
    }
}

/// An immediate token is tight against any neighbour, on either side.
pub proof fn lemma_immediate_always_tight(role: LayoutRole)
    ensures
        adjacency_between(LayoutRole::Immediate, role) == Adjacency::Tight,
        adjacency_between(role, LayoutRole::Immediate) == Adjacency::Tight,
{
}

/// The layout policy of a grammar: indentation, separators and where
/// lines break.
#[derive(Debug, PartialEq, Eq)]
pub struct LayoutPolicySpec {
    /// Spaces per indentation level.
    pub indent_width: usize,
    /// The separator between tokens.
    pub separator: String,
    /// The newline sequence.
    pub newline: String,
    /// Tokens after which a line breaks.
    pub line_break_after: Vec<String>,
    /// Tokens that open an indented block.
    pub indent_open: Vec<String>,
    /// Tokens that close an indented block.
    pub indent_close: Vec<String>,
}

impl Default for LayoutPolicySpec {
    fn default() -> (r: LayoutPolicySpec)
        ensures
            r.indent_width == 2,
            r.separator@ == " "@,
            r.newline@ == "\n"@,
            r.line_break_after@.len() == 3,
            r.line_break_after@[0]@ == ";"@,
            r.line_break_after@[1]@ == "{"@,
            r.line_break_after@[2]@ == "}"@,
            r.indent_open@.len() == 1,
            r.indent_open@[0]@ == "{"@,
            r.indent_close@.len() == 1,
            r.indent_close@[0]@ == "}"@,
    {
        LayoutPolicySpec {
            indent_width: 2,
            separator: " ".to_owned(),
            newline: "\n".to_owned(),
            line_break_after: vec![";".to_owned(), "{".to_owned(), "}".to_owned()],
            indent_open: vec!["{".to_owned()],
            indent_close: vec!["}".to_owned()],
        }
    }
}

/// The layout of one grammar rule.
#[derive(Debug, PartialEq, Eq)]
pub struct RuleLayout {
    /// The role of each token.
    pub token_roles: BTreeMap<String, LayoutRole>,
    /// Whether the rule opens an indented block.
    pub opens_indent: bool,
    /// The spacing between repeated items, if fixed.
    pub separator: Option<Adjacency>,
}

/// The layout of a grammar: a policy and per-rule layouts.
#[derive(Debug, PartialEq, Eq)]
pub struct LayoutSpec {
    /// The policy.
    pub policy: LayoutPolicySpec,
    /// Per-rule layouts, by rule name.
    pub rules: BTreeMap<String, RuleLayout>,
}

impl LayoutSpec {
    /// A layout with the given policy and no per-rule layouts.
    pub fn from_policy(policy: LayoutPolicySpec) -> (r: LayoutSpec)
        ensures
            r.policy == policy,
            r.rules@ == Map::<String, RuleLayout>::empty(),
    {
        LayoutSpec { policy, rules: BTreeMap::new() }
    }
}

} // verus!
