use blocker_engine::resource_type as rt;
use blocker_engine::{Action, DomainTree, OriginConstraint};

#[test]
fn test_basic_insert_and_query() {
    let mut tree = DomainTree::new();
    assert!(tree.insert("example.com"));
    assert!(tree.is_blocked("example.com"));
    assert!(!tree.is_blocked("other.com"));
}

#[test]
fn test_subdomain_blocking() {
    let mut tree = DomainTree::new();
    tree.insert("example.com");
    assert!(tree.is_blocked("example.com"));
    assert!(tree.is_blocked("ads.example.com"));
    assert!(tree.is_blocked("tracker.ads.example.com"));
    assert!(!tree.is_blocked("notexample.com"));
    assert!(!tree.is_blocked("example.org"));
}

#[test]
fn test_whitelist_origin() {
    let mut tree = DomainTree::new();
    tree.insert("doubleclick.net");
    tree.insert_with_whitelist("doubleclick.net", "example.com");
    assert!(tree.is_blocked("doubleclick.net"));
    assert!(!tree.is_blocked_with_origin("doubleclick.net", Some("example.com")));
    assert!(!tree.is_blocked_with_origin("doubleclick.net", Some("sub.example.com")));
    assert!(tree.is_blocked_with_origin("doubleclick.net", Some("badsite.com")));
}

#[test]
fn test_blacklist_origin() {
    let mut tree = DomainTree::new();
    tree.insert_with_blacklist("amazon-adsystem.com", "annoyingsite.com");
    assert!(!tree.is_blocked("amazon-adsystem.com"));
    assert!(!tree.is_blocked_with_origin("amazon-adsystem.com", Some("goodsite.com")));
    assert!(tree.is_blocked_with_origin("amazon-adsystem.com", Some("annoyingsite.com")));
    assert!(tree.is_blocked_with_origin("amazon-adsystem.com", Some("sub.annoyingsite.com")));
}

#[test]
fn test_multiple_domains() {
    let mut tree = DomainTree::new();
    tree.insert("ads.com");
    tree.insert("tracker.net");
    tree.insert("analytics.org");
    assert!(tree.is_blocked("ads.com"));
    assert!(tree.is_blocked("sub.ads.com"));
    assert!(tree.is_blocked("tracker.net"));
    assert!(tree.is_blocked("analytics.org"));
    assert!(!tree.is_blocked("google.com"));
}

#[test]
fn test_serialization() {
    let mut tree = DomainTree::new();
    tree.insert("example.com");
    tree.insert_with_whitelist("ads.net", "goodsite.com");
    tree.insert_with_blacklist("tracker.org", "badsite.com");
    let bytes = tree.to_bytes();
    let loaded = DomainTree::from_bytes(&bytes).unwrap();
    assert!(loaded.is_blocked("example.com"));
    assert!(loaded.is_blocked("sub.example.com"));
    assert!(!loaded.is_blocked_with_origin("ads.net", Some("goodsite.com")));
    assert!(loaded.is_blocked_with_origin("tracker.org", Some("badsite.com")));
    assert!(!loaded.is_blocked_with_origin("tracker.org", Some("othersite.com")));
}

#[test]
fn test_bulk_load() {
    let mut tree = DomainTree::new();
    tree.bulk_load(&["ads.com", "tracker.net", "analytics.org"]);
    assert!(tree.is_blocked("ads.com"));
    assert!(tree.is_blocked("tracker.net"));
    assert!(tree.is_blocked("analytics.org"));
}

#[test]
fn test_priority_whitelist_over_universal() {
    let mut tree = DomainTree::new();
    tree.insert("ads.com");
    tree.insert_with_whitelist("ads.com", "trustedsite.com");
    assert!(tree.is_blocked("ads.com"));
    assert!(!tree.is_blocked_with_origin("ads.com", Some("trustedsite.com")));
    assert!(tree.is_blocked_with_origin("ads.com", Some("othersite.com")));
}

#[test]
fn test_blacklist_does_not_apply_universal() {
    let mut tree = DomainTree::new();
    tree.insert_with_blacklist("conditional.com", "badsite.com");
    assert!(!tree.is_blocked("conditional.com"));
    assert!(!tree.is_blocked_with_origin("conditional.com", Some("goodsite.com")));
    assert!(tree.is_blocked_with_origin("conditional.com", Some("badsite.com")));
}

#[test]
fn test_resource_type_script_only() {
    let mut tree = DomainTree::new();
    tree.insert_with_modifiers("tracker.com", Action::Block, OriginConstraint::Any, rt::SCRIPT, false);
    assert!(tree.is_blocked_ex("tracker.com", None, rt::SCRIPT, false));
    assert!(!tree.is_blocked_ex("tracker.com", None, rt::IMAGE, false));
    // ALL (0) on the request side bypasses the mask check.
    assert!(tree.is_blocked_ex("tracker.com", None, rt::ALL, false));
}

#[test]
fn test_resource_type_multi_mask() {
    let mut tree = DomainTree::new();
    tree.insert_with_modifiers("cdn.com", Action::Block, OriginConstraint::Any, rt::SCRIPT | rt::STYLESHEET, false);
    assert!(tree.is_blocked_ex("cdn.com", None, rt::SCRIPT, false));
    assert!(tree.is_blocked_ex("cdn.com", None, rt::STYLESHEET, false));
    assert!(!tree.is_blocked_ex("cdn.com", None, rt::IMAGE, false));
    assert!(!tree.is_blocked_ex("cdn.com", None, rt::XHR, false));
}

#[test]
fn test_third_party_only_blocks_correctly() {
    let mut tree = DomainTree::new();
    tree.insert_with_modifiers("widget.com", Action::Block, OriginConstraint::Any, rt::ALL, true);
    assert!(tree.is_blocked_ex("widget.com", Some("othersite.com"), rt::ALL, true));
    assert!(!tree.is_blocked_ex("widget.com", Some("widget.com"), rt::ALL, false));
    assert!(!tree.is_blocked_ex("widget.com", None, rt::ALL, false));
}

#[test]
fn test_third_party_plus_resource_type() {
    let mut tree = DomainTree::new();
    tree.insert_with_modifiers("tracker.net", Action::Block, OriginConstraint::Any, rt::SCRIPT, true);
    assert!(tree.is_blocked_ex("tracker.net", Some("news.com"), rt::SCRIPT, true));
    assert!(!tree.is_blocked_ex("tracker.net", Some("news.com"), rt::IMAGE, true));
    assert!(!tree.is_blocked_ex("tracker.net", Some("tracker.net"), rt::SCRIPT, false));
}

#[test]
fn test_universal_block_with_resource_exception() {
    let mut tree = DomainTree::new();
    tree.insert_with_modifiers("tracker.com", Action::Block, OriginConstraint::Any, rt::ALL, false);
    tree.insert_with_modifiers("tracker.com", Action::Allow, OriginConstraint::Any, rt::IMAGE, false);
    assert!(!tree.is_blocked_ex("tracker.com", None, rt::IMAGE, false));
    assert!(tree.is_blocked_ex("tracker.com", None, rt::SCRIPT, false));
    assert!(tree.is_blocked_ex("tracker.com", None, rt::ALL, false));
}

#[test]
fn test_origin_constraint_with_resource_type() {
    let mut tree = DomainTree::new();
    tree.insert_with_modifiers(
        "cdn.com",
        Action::Block,
        OriginConstraint::OnlyOn(vec!["evil.com".to_string()]),
        rt::SCRIPT,
        false,
    );
    assert!(tree.is_blocked_ex("cdn.com", Some("evil.com"), rt::SCRIPT, false));
    assert!(!tree.is_blocked_ex("cdn.com", Some("good.com"), rt::SCRIPT, false));
    assert!(!tree.is_blocked_ex("cdn.com", Some("evil.com"), rt::IMAGE, false));
}

#[test]
fn test_except_on_origin_constraint() {
    let mut tree = DomainTree::new();
    tree.insert_with_modifiers(
        "ads.com",
        Action::Block,
        OriginConstraint::ExceptOn(vec!["trusted.com".to_string()]),
        rt::ALL,
        false,
    );
    assert!(tree.is_blocked_ex("ads.com", Some("evil.com"), rt::ALL, false));
    assert!(!tree.is_blocked_ex("ads.com", Some("trusted.com"), rt::ALL, false));
    assert!(!tree.is_blocked_ex("ads.com", Some("sub.trusted.com"), rt::ALL, false));
    // No origin: the exclusion cannot match, so the rule blocks.
    assert!(tree.is_blocked_ex("ads.com", None, rt::ALL, false));
}

#[test]
fn test_serialization_preserves_modifiers() {
    let mut tree = DomainTree::new();
    tree.insert_with_modifiers("tracker.com", Action::Block, OriginConstraint::Any, rt::SCRIPT | rt::XHR, true);
    tree.insert_with_modifiers(
        "cdn.com",
        Action::Allow,
        OriginConstraint::OnlyOn(vec!["safe.com".to_string()]),
        rt::IMAGE,
        false,
    );
    let bytes = tree.to_bytes();
    let loaded = DomainTree::from_bytes(&bytes).unwrap();
    assert!(loaded.is_blocked_ex("tracker.com", Some("news.com"), rt::SCRIPT, true));
    assert!(!loaded.is_blocked_ex("tracker.com", Some("tracker.com"), rt::SCRIPT, false));
    assert!(!loaded.is_blocked_ex("cdn.com", Some("safe.com"), rt::IMAGE, false));
}

#[test]
fn test_old_cache_format_rejected() {
    let old: &[u8] = b"DOMTREE2\x00\x00\x00\x00";
    assert!(DomainTree::from_bytes(old).is_err());
}
