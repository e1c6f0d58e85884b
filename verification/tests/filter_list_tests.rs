use blocker_engine::abp::{parse_abp_line, ParsedRule};
use blocker_engine::filter_list::{FilterListManager, FilterListMetadata};
use blocker_engine::resource_type as rt;

fn parsed(line: &str) -> Option<ParsedRule> {
    parse_abp_line(line)
}

#[test]
fn test_parse_universal_block() {
    let r = parsed("||ads.example.com^").unwrap();
    assert_eq!(r.domain, "ads.example.com");
    assert!(!r.is_exception);
    assert!(r.positive_origins.is_empty());
    assert!(r.negative_origins.is_empty());
    assert_eq!(r.resource_mask, 0);
    assert!(!r.third_party_only);
}

#[test]
fn test_parse_exception() {
    let r = parsed("@@||safe.example.com^").unwrap();
    assert_eq!(r.domain, "safe.example.com");
    assert!(r.is_exception);
    assert!(r.positive_origins.is_empty());
    assert_eq!(r.resource_mask, 0);
}

#[test]
fn test_parse_block_with_domain_option() {
    let r = parsed("||tracker.com^$domain=bad1.com|bad2.com").unwrap();
    assert_eq!(r.domain, "tracker.com");
    assert!(!r.is_exception);
    assert_eq!(r.positive_origins, vec!["bad1.com", "bad2.com"]);
    assert!(r.negative_origins.is_empty());
}

#[test]
fn test_parse_whitelist_with_domain_option() {
    let r = parsed("@@||cdn.net^$domain=trusted.com").unwrap();
    assert_eq!(r.domain, "cdn.net");
    assert!(r.is_exception);
    assert_eq!(r.positive_origins, vec!["trusted.com"]);
}

#[test]
fn test_parse_negated_domain_option() {
    let r = parsed("||ads.com^$domain=~good.com|~safe.org").unwrap();
    assert_eq!(r.domain, "ads.com");
    assert!(r.positive_origins.is_empty());
    assert_eq!(r.negative_origins, vec!["good.com", "safe.org"]);
}

#[test]
fn test_parse_resource_type_script() {
    let r = parsed("||tracker.com^$script").unwrap();
    assert_eq!(r.resource_mask, rt::SCRIPT);
    assert!(!r.third_party_only);
}

#[test]
fn test_parse_resource_type_multi() {
    let r = parsed("||tracker.com^$script,image").unwrap();
    assert_eq!(r.resource_mask, rt::SCRIPT | rt::IMAGE);
}

#[test]
fn test_parse_third_party() {
    let r = parsed("||tracker.com^$third-party").unwrap();
    assert!(r.third_party_only);
}

#[test]
fn test_parse_combined_modifiers() {
    let r = parsed("||ads.net^$script,third-party,domain=evil.com").unwrap();
    assert_eq!(r.domain, "ads.net");
    assert!(!r.is_exception);
    assert_eq!(r.resource_mask, rt::SCRIPT);
    assert!(r.third_party_only);
    assert_eq!(r.positive_origins, vec!["evil.com"]);
}

#[test]
fn test_parse_ignores_cosmetic() {
    assert!(parsed("example.com##.ad-banner").is_none());
    assert!(parsed("##.some-class").is_none());
}

#[test]
fn test_parse_ignores_path_rules() {
    assert!(parsed("||example.com/ads/*").is_none());
}

#[test]
fn test_parse_ignores_no_double_pipe() {
    assert!(parsed("ads.example.com").is_none());
}

#[test]
fn test_parse_ignores_no_dot() {
    assert!(parsed("||localhost^").is_none());
}

#[test]
fn test_manager_install_and_query() {
    let lines = [
        "! Test list",
        "||ads.example.com^",
        "||tracker.net^",
        "||cdn.safe.com^$domain=evil.com",
        "@@||safe.example.com^",
    ];

    let mut manager = FilterListManager::new("/tmp/blocker_engine_test");
    let meta = FilterListMetadata {
        name: "test".to_string(),
        url: "https://example.com/list.txt".to_string(),
        etag: None,
        last_modified: None,
        last_fetched_secs: None,
        rule_count: 0,
        enabled: true,
    };
    manager.load_metadata_entries(vec![meta]);

    // Rebuild the tree from the enabled lists' text.
    let names = manager.begin_rebuild();
    assert_eq!(names, vec!["test"]);
    let text: Vec<String> = lines.iter().map(|l| l.to_string()).collect();
    let count = manager.apply_list_lines(&text);
    manager.set_rule_count("test", count);
    assert_eq!(manager.get_list_info("test").unwrap().rule_count, 4);

    assert!(manager.is_blocked("ads.example.com"));
    assert!(manager.is_blocked("sub.ads.example.com"));
    assert!(manager.is_blocked("tracker.net"));
    assert!(!manager.is_blocked("safe.example.com"));

    // cdn.safe.com is blocked only on evil.com.
    assert!(!manager.is_blocked("cdn.safe.com"));
    assert!(manager.is_blocked_with_origin("cdn.safe.com", Some("evil.com")));
    assert!(!manager.is_blocked_with_origin("cdn.safe.com", Some("good.com")));
}
