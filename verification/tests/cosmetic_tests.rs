use blocker_engine::cosmetic::{domain_suffixes, host_matches_any, parse_cosmetic_line, CosmeticEngine, ParsedCosmeticRule};
use blocker_engine::js::compile_scriptlet;

// ── Parser tests ──────────────────────────────────────────────────────────────

#[test]
fn test_parse_global_css() {
    let r = parse_cosmetic_line("##.ad-banner").unwrap();
    assert_eq!(r, ParsedCosmeticRule::GlobalCss { selector: ".ad-banner".to_string() });
}

#[test]
fn test_parse_global_exception() {
    let r = parse_cosmetic_line("#@#.ad-banner").unwrap();
    assert_eq!(r, ParsedCosmeticRule::GlobalException { selector: ".ad-banner".to_string() });
}

#[test]
fn test_parse_domain_css() {
    let r = parse_cosmetic_line("example.com##.ad").unwrap();
    assert_eq!(
        r,
        ParsedCosmeticRule::DomainCss { domains: vec!["example.com".to_string()], selector: ".ad".to_string() }
    );
}

#[test]
fn test_parse_multi_domain() {
    let r = parse_cosmetic_line("a.com,b.com##.ad").unwrap();
    assert_eq!(
        r,
        ParsedCosmeticRule::DomainCss {
            domains: vec!["a.com".to_string(), "b.com".to_string()],
            selector: ".ad".to_string(),
        }
    );
}

#[test]
fn test_parse_domain_exception() {
    let r = parse_cosmetic_line("example.com#@#.ad").unwrap();
    assert_eq!(
        r,
        ParsedCosmeticRule::DomainException { domains: vec!["example.com".to_string()], selector: ".ad".to_string() }
    );
}

#[test]
fn test_parse_negated_domain() {
    let r = parse_cosmetic_line("~example.com##.ad").unwrap();
    assert_eq!(
        r,
        ParsedCosmeticRule::NegatedDomainCss {
            excluded_domains: vec!["example.com".to_string()],
            selector: ".ad".to_string(),
        }
    );
}

#[test]
fn test_parse_scriptlet() {
    let r = parse_cosmetic_line("example.com##+js(set-constant, adblock, false)").unwrap();
    assert_eq!(
        r,
        ParsedCosmeticRule::Scriptlet {
            domains: vec!["example.com".to_string()],
            payload: "set-constant, adblock, false".to_string(),
        }
    );
}

#[test]
fn test_parse_invalid_no_dot() {
    assert!(parse_cosmetic_line("localhost##.ad").is_none());
}

#[test]
fn test_parse_non_cosmetic_line() {
    assert!(parse_cosmetic_line("||ads.com^").is_none());
    assert!(parse_cosmetic_line("! comment").is_none());
    assert!(parse_cosmetic_line("").is_none());
}

// ── Suffix traversal tests ────────────────────────────────────────────────────

#[test]
fn test_suffix_chain_order() {
    let suffixes = domain_suffixes("ads.news.example.com");
    assert_eq!(suffixes, vec!["example.com", "news.example.com", "ads.news.example.com",]);
}

#[test]
fn test_suffix_chain_bare_domain() {
    let suffixes = domain_suffixes("example.com");
    assert_eq!(suffixes, vec!["example.com"]);
}

#[test]
fn test_suffix_chain_tld_only_skipped() {
    let suffixes = domain_suffixes("com");
    assert!(suffixes.is_empty());
}

// ── Engine integration tests ──────────────────────────────────────────────────

#[test]
fn test_global_rule_applies_everywhere() {
    let mut engine = CosmeticEngine::new();
    engine.insert_line("##.ad-banner");
    let bundle = engine.build_bundle("any.site.com");
    assert!(bundle.contains(".ad-banner"));
}

#[test]
fn test_domain_rule_applies_to_subdomain() {
    let mut engine = CosmeticEngine::new();
    engine.insert_line("example.com##.sponsored");
    assert!(engine.build_bundle("example.com").contains(".sponsored"));
    assert!(engine.build_bundle("sub.example.com").contains(".sponsored"));
    assert!(!engine.build_bundle("other.com").contains(".sponsored"));
}

#[test]
fn test_exception_overrides_global() {
    let mut engine = CosmeticEngine::new();
    engine.insert_line("##.ad-banner");
    engine.insert_line("example.com#@#.ad-banner");
    // Exception on example.com: the selector is not in its bundle.
    assert!(!engine.build_bundle("example.com").contains(".ad-banner"));
    // It still applies everywhere else.
    assert!(engine.build_bundle("other.com").contains(".ad-banner"));
}

#[test]
fn test_negated_domain_rule() {
    let mut engine = CosmeticEngine::new();
    engine.insert_line("~example.com##.ad");
    assert!(engine.build_bundle("other.com").contains(".ad"));
    assert!(!engine.build_bundle("example.com").contains(".ad"));
    assert!(!engine.build_bundle("sub.example.com").contains(".ad"));
}

#[test]
fn test_scriptlet_set_constant() {
    let mut engine = CosmeticEngine::new();
    engine.insert_line("example.com##+js(set-constant, adblock, false)");
    let bundle = engine.build_bundle("example.com");
    assert!(bundle.contains("Object.defineProperty"));
    assert!(bundle.contains("adblock"));
    assert!(!engine.build_bundle("other.com").contains("adblock"));
}

#[test]
fn test_empty_bundle_for_unmatched_host() {
    let mut engine = CosmeticEngine::new();
    engine.insert_line("example.com##.ad");
    assert_eq!(engine.build_bundle("other.com"), "");
}

#[test]
fn test_no_duplicate_selectors_in_bundle() {
    let mut engine = CosmeticEngine::new();
    // Same selector from two sources.
    engine.insert_line("##.ad");
    engine.insert_line("example.com##.ad");
    let bundle = engine.build_bundle("example.com");
    let count = bundle.matches(".ad").count();
    assert_eq!(count, 1);
}

#[test]
fn test_host_matches_any() {
    let domains = vec!["example.com".to_string()];
    assert!(host_matches_any("example.com", &domains));
    assert!(host_matches_any("sub.example.com", &domains));
    assert!(!host_matches_any("notexample.com", &domains));
    assert!(!host_matches_any("fakeexample.com", &domains));
}

#[test]
fn test_compile_scriptlet_set_constant_bool() {
    let js = compile_scriptlet("set-constant, adblock, false").unwrap();
    assert!(js.contains("adblock"));
    assert!(js.contains("false"));
    assert!(js.contains("Object.defineProperty"));
}

#[test]
fn test_compile_scriptlet_unknown_ignored() {
    assert!(compile_scriptlet("unknown-scriptlet, arg").is_none());
}

#[test]
fn test_global_exception_suppresses_global_rule() {
    let mut engine = CosmeticEngine::new();
    engine.insert_line("##.ad");
    engine.insert_line("#@#.ad");
    assert!(!engine.build_bundle("any.com").contains(".ad"));
}
