use panproto_gat::enrichment::{is_layout_sort, Adjacency, EnrichmentKind, LayoutPolicySpec, LayoutRole, LayoutSpec};
use panproto_gat::enrichment::Adjacency::{Space, Tight};
use panproto_gat::enrichment::LayoutRole::{BracketClose, BracketOpen, Connector, Keyword, Operator, Separator, Terminal};

#[test]
fn layout_sort_predicate_covers_walker_constraints() {
    assert!(is_layout_sort("start-byte"));
    assert!(is_layout_sort("end-byte"));
    assert!(is_layout_sort("chose-alt-fingerprint"));
    assert!(is_layout_sort("chose-alt-child-kinds"));
    assert!(is_layout_sort("interstitial-0"));
    assert!(is_layout_sort("interstitial-12-start-byte"));
    assert!(!is_layout_sort("literal-value"));
    assert!(!is_layout_sort("field:op"));
}

#[test]
fn enrichment_kind_membership_matches_predicate() {
    assert!(EnrichmentKind::Layout.is_member_sort("start-byte"));
    assert!(EnrichmentKind::Layout.is_member_sort("interstitial-3"));
    assert!(!EnrichmentKind::Layout.is_member_sort("literal-value"));
}

#[test]
fn adjacency_matches_historical_spacing_table() {
    assert_eq!(Adjacency::between(BracketOpen, Terminal), Tight);
    assert_eq!(Adjacency::between(Terminal, BracketClose), Tight);
    assert_eq!(Adjacency::between(Terminal, Separator), Tight);
    assert_eq!(Adjacency::between(Separator, Terminal), Space);
    assert_eq!(Adjacency::between(Connector, Terminal), Tight);
    assert_eq!(Adjacency::between(Terminal, Connector), Tight);
    assert_eq!(Adjacency::between(Terminal, BracketOpen), Tight);
    assert_eq!(Adjacency::between(BracketClose, BracketOpen), Tight);
    assert_eq!(Adjacency::between(Keyword, Terminal), Space);
    assert_eq!(Adjacency::between(Terminal, Keyword), Space);
    assert_eq!(Adjacency::between(Terminal, Terminal), Space);
    assert_eq!(Adjacency::between(Terminal, Operator), Space);
    assert_eq!(Adjacency::between(Operator, Terminal), Space);
    assert_eq!(Adjacency::between(Operator, Operator), Space);
    assert_eq!(Adjacency::between(BracketClose, Terminal), Space);
    assert_eq!(Adjacency::between(Operator, BracketOpen), Space);
}

#[test]
fn immediate_role_is_always_tight() {
    for role in [
        LayoutRole::BracketOpen,
        LayoutRole::BracketClose,
        LayoutRole::Separator,
        LayoutRole::Keyword,
        LayoutRole::Operator,
        LayoutRole::Connector,
        LayoutRole::Terminal,
        LayoutRole::Immediate,
    ] {
        assert_eq!(Adjacency::between(LayoutRole::Immediate, role), Adjacency::Tight);
        assert_eq!(Adjacency::between(role, LayoutRole::Immediate), Adjacency::Tight);
    }
}

#[test]
fn layout_spec_from_default_policy_has_no_rules() {
    let spec = LayoutSpec::from_policy(LayoutPolicySpec::default());
    assert!(spec.rules.is_empty());
    assert_eq!(spec.policy, LayoutPolicySpec::default());
}
