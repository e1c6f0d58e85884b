use blocker_engine::abp::{insert_list_line, insert_list_lines, parse_abp_line};
use blocker_engine::cache::CacheError;
use blocker_engine::cosmetic::{CosmeticEngine, DomainBucket};
use blocker_engine::domain::reverse_domain_chars;
use blocker_engine::filter_list::{is_not_modified, progress_percent, FilterListManager, ListError};
use blocker_engine::ip::{is_ipv4_exec, is_ipv6_exec};
use blocker_engine::js::{compile_bundle, compile_scriptlet, js_primitive_literal, js_string_literal};
use blocker_engine::resource_type as rt;
use blocker_engine::{Action, DomainTree, OriginConstraint};

fn chars(s: &str) -> Vec<char> {
    s.chars().collect()
}

// ── Domains and the tree ──────────────────────────────────────────────────────

#[test]
fn reverse_domain_twice_gives_it_back() {
    let r = reverse_domain_chars(&chars("ads.news.example.com"));
    assert_eq!(r, chars("com.example.news.ads"));
    assert_eq!(reverse_domain_chars(&r), chars("ads.news.example.com"));
    assert_eq!(reverse_domain_chars(&chars("localhost")), chars("localhost"));
}

#[test]
fn block_rule_covers_subdomains_at_label_boundaries() {
    let mut tree = DomainTree::new();
    tree.insert("ads.com");
    assert!(tree.is_blocked("x.y.ads.com"));
    assert!(!tree.is_blocked("adsx.com"));
    assert!(!tree.is_blocked("xads.com"));
    assert!(!tree.is_blocked("com"));
    assert!(!tree.is_blocked(""));
}

#[test]
fn allow_rule_exempts_domain_and_subdomains() {
    let mut tree = DomainTree::new();
    tree.insert("ads.com");
    tree.insert("cdn.ads.com");
    tree.insert_with_modifiers("cdn.ads.com", Action::Allow, OriginConstraint::Any, rt::ALL, false);
    assert!(tree.is_blocked("ads.com"));
    assert!(!tree.is_blocked("cdn.ads.com"));
    assert!(!tree.is_blocked_ex("img.cdn.ads.com", Some("news.com"), rt::IMAGE, true));
}

#[test]
fn origin_rules_do_not_fire_without_origin() {
    let mut tree = DomainTree::new();
    tree.insert_with_blacklist("a.com", "x.com");
    tree.insert_with_modifiers("b.com", Action::Block, OriginConstraint::OnlyOn(vec!["y.com".to_string()]), rt::ALL, false);
    assert!(!tree.is_blocked_ex("a.com", None, rt::ALL, true));
    assert!(!tree.is_blocked_ex("b.com", None, rt::SCRIPT, false));
    assert!(tree.is_blocked_ex("b.com", Some("www.y.com"), rt::SCRIPT, false));
}

#[test]
fn empty_origin_or_domain_is_refused() {
    let mut tree = DomainTree::new();
    assert!(!tree.insert(""));
    assert!(!tree.insert_with_whitelist("a.com", ""));
    assert!(!tree.insert_with_blacklist("a.com", ""));
    assert_eq!(tree.count_blocked(), 0);
}

#[test]
fn count_and_list_of_rules() {
    let mut tree = DomainTree::new();
    tree.insert("ads.com");
    tree.insert("ads.com");
    tree.insert("tracker.net");
    tree.insert_with_whitelist("ads.com", "news.com");
    // Each successful insertion stores one rule.
    assert_eq!(tree.count_blocked(), 4);
    let mut all = tree.get_all_blocked();
    all.sort();
    all.dedup();
    assert_eq!(all, vec!["ads.com", "tracker.net"]);
}

#[test]
fn split_nodes_keep_their_rules() {
    let mut tree = DomainTree::new();
    tree.insert("abcd.com");
    tree.insert("abxy.com");
    tree.insert("ab.com");
    assert!(tree.is_blocked("abcd.com"));
    assert!(tree.is_blocked("abxy.com"));
    assert!(tree.is_blocked("ab.com"));
    assert!(!tree.is_blocked("abc.com"));
    assert!(!tree.is_blocked("a.com"));
}

#[test]
fn guessed_third_party_from_origin() {
    let mut tree = DomainTree::new();
    tree.insert_with_modifiers("widget.com", Action::Block, OriginConstraint::Any, rt::ALL, true);
    assert!(tree.is_blocked_with_origin("widget.com", Some("news.com")));
    assert!(!tree.is_blocked_with_origin("widget.com", Some("widget.com")));
    assert!(!tree.is_blocked_with_origin("widget.com", Some("www.widget.com")));
    assert!(!tree.is_blocked_with_origin("widget.com", None));
}

// ── Cache format ──────────────────────────────────────────────────────────────

#[test]
fn empty_tree_cache_bytes() {
    let bytes = DomainTree::new().to_bytes();
    let mut expected: Vec<u8> = b"DOMTREE3".to_vec();
    expected.extend_from_slice(&[0u8; 12]);
    assert_eq!(bytes, expected);
    let t = DomainTree::from_bytes(&bytes).unwrap();
    assert_eq!(t.count_blocked(), 0);
}

#[test]
fn cache_round_trip_keeps_every_rule() {
    let mut tree = DomainTree::new();
    tree.insert("ads.com");
    tree.insert("abc.com");
    tree.insert("ab.com");
    tree.insert("ünïcode.example");
    tree.insert_with_modifiers(
        "cdn.net",
        Action::Allow,
        OriginConstraint::ExceptOn(vec!["a.org".to_string(), "b.org".to_string()]),
        rt::SCRIPT | rt::FONT,
        true,
    );
    let bytes = tree.to_bytes();
    let loaded = DomainTree::from_bytes(&bytes).unwrap();
    assert_eq!(loaded.count_blocked(), 5);
    assert_eq!(loaded.to_bytes(), bytes);
    assert!(loaded.is_blocked("x.ünïcode.example"));
    assert!(!loaded.is_blocked("ac.com"));
}

#[test]
fn cache_errors() {
    assert!(matches!(DomainTree::from_bytes(b""), Err(CacheError::Corrupt)));
    assert!(matches!(DomainTree::from_bytes(b"DOMTREE3"), Err(CacheError::Corrupt)));
    assert!(matches!(DomainTree::from_bytes(b"DOMTREE2\x00\x00\x00\x00"), Err(CacheError::IncompatibleFormat)));
    assert!(matches!(DomainTree::from_bytes(b"NOTATREE and more"), Err(CacheError::IncompatibleFormat)));

    // A root with rules is refused.
    let mut root_rule: Vec<u8> = b"DOMTREE3".to_vec();
    root_rule.extend_from_slice(&[0, 0, 0, 0, 1, 0, 0, 0]);
    assert!(matches!(DomainTree::from_bytes(&root_rule), Err(CacheError::Corrupt)));

    let mut tree = DomainTree::new();
    tree.insert("a.b");
    let good = tree.to_bytes();
    // The child's key must be the first character of its prefix.
    let mut bad_key = good.clone();
    bad_key[20] = b'z';
    assert!(matches!(DomainTree::from_bytes(&bad_key), Err(CacheError::Corrupt)));
    // The prefix must be valid UTF-8.
    let mut bad_utf8 = good.clone();
    bad_utf8[28] = 0xff;
    assert!(matches!(DomainTree::from_bytes(&bad_utf8), Err(CacheError::Corrupt)));
    // Cut short.
    assert!(matches!(DomainTree::from_bytes(&good[..good.len() - 1]), Err(CacheError::Corrupt)));
    // Bytes after the root are ignored.
    let mut longer = good.clone();
    longer.extend_from_slice(b"trailing");
    assert!(DomainTree::from_bytes(&longer).unwrap().is_blocked("a.b"));
}

// ── Filter lines ──────────────────────────────────────────────────────────────

#[test]
fn parse_lowercases_domain_and_origins() {
    let r = parse_abp_line("||ADS.Example.COM^$domain=News.COM|~Old.ORG|nodot").unwrap();
    assert_eq!(r.domain, "ads.example.com");
    assert_eq!(r.positive_origins, vec!["news.com"]);
    assert_eq!(r.negative_origins, vec!["old.org"]);
}

#[test]
fn parse_options() {
    let r = parse_abp_line("||a.com|^$ xhr , ~3p,media,unknown,3p,object").unwrap();
    assert_eq!(r.domain, "a.com");
    assert_eq!(r.resource_mask, rt::XHR | rt::MEDIA | rt::OTHER);
    assert!(r.third_party_only);
    let r = parse_abp_line("||a.com^$~third-party").unwrap();
    assert!(!r.third_party_only);
    let r = parse_abp_line("||a.com^$domain=||").unwrap();
    assert!(r.positive_origins.is_empty() && r.negative_origins.is_empty());
}

#[test]
fn parse_ignores_ip_addresses() {
    assert!(parse_abp_line("||1.2.3.4^").is_none());
    assert!(parse_abp_line("||::ffff:1.2.3.4^").is_none());
    assert!(parse_abp_line("||256.1.2.3^").is_some());
    assert!(parse_abp_line("||01.2.3.4^").is_some());
}

#[test]
fn ip_literal_forms() {
    assert!(is_ipv4_exec(&chars("0.0.0.0")));
    assert!(is_ipv4_exec(&chars("255.255.255.255")));
    assert!(!is_ipv4_exec(&chars("1.2.3")));
    assert!(!is_ipv4_exec(&chars("1.2.3.4.5")));
    assert!(!is_ipv4_exec(&chars("1.2.3.256")));
    assert!(!is_ipv4_exec(&chars("1.2.3.04")));
    assert!(is_ipv6_exec(&chars("::")));
    assert!(is_ipv6_exec(&chars("::1")));
    assert!(is_ipv6_exec(&chars("1:2:3:4:5:6:7:8")));
    assert!(is_ipv6_exec(&chars("1:2:3:4:5:6:1.2.3.4")));
    assert!(is_ipv6_exec(&chars("fe80::1:2")));
    assert!(is_ipv6_exec(&chars("1:2:3:4:5:6:7::")));
    assert!(is_ipv6_exec(&chars("1:2:3:4:5::1.2.3.4")));
    assert!(!is_ipv6_exec(&chars("1:2:3:4:5:6::1.2.3.4")));
    assert!(!is_ipv6_exec(&chars("1::2::3")));
    assert!(!is_ipv6_exec(&chars("12345::")));
    assert!(!is_ipv6_exec(&chars("1:2:3:4:5:6:7")));
    assert!(!is_ipv6_exec(&chars("1.2.3.4::")));
}

#[test]
fn list_lines() {
    let mut tree = DomainTree::new();
    assert!(insert_list_line(&mut tree, "  ||ads.com^  "));
    assert!(!insert_list_line(&mut tree, "! comment"));
    assert!(!insert_list_line(&mut tree, "# comment"));
    assert!(!insert_list_line(&mut tree, ""));
    assert!(!insert_list_line(&mut tree, "||x.com##.ad"));
    assert!(!insert_list_line(&mut tree, "||x.com#?#.ad"));
    assert!(!insert_list_line(&mut tree, "/ads/"));
    assert!(insert_list_line(&mut tree, "@@||good.ads.com^"));
    assert!(insert_list_line(&mut tree, "||t.com^$domain=~safe.com"));
    assert_eq!(tree.count_blocked(), 3);
    assert!(tree.is_blocked("ads.com"));
    assert!(!tree.is_blocked("good.ads.com"));
    assert!(tree.is_blocked_with_origin("t.com", Some("evil.com")));
    assert!(!tree.is_blocked_with_origin("t.com", Some("www.safe.com")));
}

// ── Scripts ───────────────────────────────────────────────────────────────────

#[test]
fn js_literals() {
    assert_eq!(js_string_literal("it's\\\n\r"), "'it\\'s\\\\\\n\\r'");
    assert_eq!(js_primitive_literal("true"), "true");
    assert_eq!(js_primitive_literal("undefined"), "undefined");
    assert_eq!(js_primitive_literal("42"), "42");
    assert_eq!(js_primitive_literal("-1.5e3"), "-1.5e3");
    assert_eq!(js_primitive_literal(".5"), ".5");
    assert_eq!(js_primitive_literal("inf"), "inf");
    assert_eq!(js_primitive_literal("NaN"), "NaN");
    assert_eq!(js_primitive_literal("abc"), "'abc'");
    assert_eq!(js_primitive_literal(""), "''");
    assert_eq!(js_primitive_literal("1e"), "'1e'");
}

#[test]
fn scriptlets() {
    assert_eq!(
        compile_scriptlet("set-constant, x, 1").unwrap(),
        "try{Object.defineProperty(window,'x',{value:1,writable:false})}catch(e){};"
    );
    assert!(compile_scriptlet("set-constant").is_none());
    assert!(compile_scriptlet("abort-on-property-read, foo").unwrap().contains("get:function"));
    assert!(compile_scriptlet("abort-on-property-write, foo").unwrap().contains("set:function"));
    assert_eq!(compile_scriptlet("prevent-setTimeout").unwrap(), "window.setTimeout=function(){};");
    assert_eq!(compile_scriptlet("prevent-setInterval").unwrap(), "window.setInterval=function(){};");
    assert_eq!(compile_scriptlet("noop").unwrap(), "void 0;");
    assert_eq!(compile_scriptlet(" no-op ").unwrap(), "void 0;");
}

#[test]
fn bundle_text() {
    let css = vec![".a".to_string(), ".b".to_string(), ".a".to_string()];
    let scripts = vec!["no-op".to_string(), "unknown".to_string()];
    assert_eq!(
        compile_bundle(&css, &scripts),
        "(function(){var s=document.createElement('style');s.textContent='.a,.b{display:none!important}';document.documentElement.appendChild(s);void 0;})();"
    );
    assert_eq!(compile_bundle(&vec![], &vec![]), "(function(){})();");
}

#[test]
fn engine_counts_and_exceptions() {
    let mut engine = CosmeticEngine::new();
    assert!(engine.is_empty());
    assert!(engine.insert_line("a.com,b.com##.x"));
    assert!(engine.insert_line("#@#.y"));
    assert!(engine.insert_line("#@#.y"));
    assert!(engine.insert_line("~c.com##.z"));
    assert!(engine.insert_line("~d.com##.z"));
    assert!(!engine.insert_line("##+js(no-op)"));
    assert!(!engine.insert_line("~a.com##+js(no-op)"));
    assert!(!engine.insert_line("~a.com#@#.x"));
    assert_eq!(engine.total_rules(), 4);
    assert!(!engine.is_empty());
    assert!(engine.build_bundle("www.c.com").is_empty());
    assert!(engine.build_bundle("x.com").contains(".z"));
    assert!(engine.build_bundle(".A.COM.").contains(".x"));
    assert!(DomainBucket::default().is_empty());
}

#[test]
fn engine_exception_on_parent_domain() {
    let mut engine = CosmeticEngine::new();
    engine.insert_line("news.example.com##.promo");
    engine.insert_line("example.com#@#.promo");
    engine.insert_line("ads.news.example.com##+js(prevent-setTimeout)");
    let b = engine.build_bundle("ads.news.example.com");
    assert!(!b.contains(".promo"));
    assert_eq!(b, "(function(){window.setTimeout=function(){};})();");
}

// ── The manager ───────────────────────────────────────────────────────────────

#[test]
fn manager_registry() {
    let mut m = FilterListManager::new("/data/lists/");
    assert!(m.register_list("easy", "https://e.org/list.txt").is_ok());
    assert!(matches!(m.register_list("easy", "https://other"), Err(ListError::AlreadyExists(n)) if n == "easy"));
    assert!(m.has_list("easy"));
    let info = m.get_list_info("easy").unwrap();
    assert!(info.enabled);
    assert_eq!(info.rule_count, 0);
    assert_eq!(info.url, "https://e.org/list.txt");
    assert!(m.register_list("second", "https://s.org").is_ok());
    assert_eq!(m.get_all_lists().len(), 2);
    assert_eq!(m.list_names(), vec!["easy", "second"]);

    assert!(matches!(m.set_list_enabled("easy", false), Ok(true)));
    assert!(matches!(m.set_list_enabled("easy", false), Ok(false)));
    assert!(matches!(m.set_list_enabled("none", true), Err(ListError::NotFound(_))));
    assert_eq!(m.enabled_list_names(), vec!["second"]);

    assert!(matches!(m.remove_list("missing"), Err(ListError::NotFound(n)) if n == "missing"));
    assert!(m.remove_list("easy").is_ok());
    assert!(!m.has_list("easy"));
    assert!(m.get_list_info("easy").is_none());
}

#[test]
fn manager_paths() {
    let m = FilterListManager::new("/data/lists");
    assert_eq!(m.metadata_path(), "/data/lists/lists.json");
    assert_eq!(m.tree_cache_path(), "/data/lists/domain_tree.cache");
    assert_eq!(m.list_file_path("My List/é-1.x"), "/data/lists/My_List_é-1.x.txt");
    let m = FilterListManager::new("/data/lists/");
    assert_eq!(m.metadata_path(), "/data/lists/lists.json");
    let m = FilterListManager::new("");
    assert_eq!(m.tree_cache_path(), "domain_tree.cache");
}

#[test]
fn manager_fetch_bookkeeping() {
    let mut m = FilterListManager::new("/tmp");
    m.register_list("l", "https://l.org").unwrap();
    let q = m.fetch_request("l").unwrap();
    assert_eq!(q.url, "https://l.org");
    assert!(q.etag.is_none() && q.last_modified.is_none());
    assert!(matches!(m.fetch_request("x"), Err(ListError::NotFound(_))));

    m.record_fetch("l", false, Some("\"v1\"".to_string()), Some("Mon".to_string()), 100, 7);
    let info = m.get_list_info("l").unwrap();
    assert_eq!(info.etag.as_deref(), Some("\"v1\""));
    assert_eq!(info.last_fetched_secs, Some(100));
    assert_eq!(info.rule_count, 7);

    // "Not modified": the validators stay.
    m.record_fetch("l", true, None, None, 200, 7);
    let info = m.get_list_info("l").unwrap();
    assert_eq!(info.etag.as_deref(), Some("\"v1\""));
    assert_eq!(info.last_modified.as_deref(), Some("Mon"));
    assert_eq!(info.last_fetched_secs, Some(200));
    let q = m.fetch_request("l").unwrap();
    assert_eq!(q.etag.as_deref(), Some("\"v1\""));

    assert!(is_not_modified(304));
    assert!(!is_not_modified(200));
    assert_eq!(progress_percent(1, 3), 30);
    assert_eq!(progress_percent(3, 3), 90);
    assert_eq!(progress_percent(0, 7), 0);
    assert_eq!(progress_percent(2, 7), 25);
}

#[test]
fn manager_rebuild_and_counts() {
    let mut m = FilterListManager::new("/tmp");
    m.register_list("a", "u").unwrap();
    m.register_list("b", "u").unwrap();
    m.set_list_enabled("b", false).unwrap();
    assert_eq!(m.apply_list_lines(&vec!["||old.com^".to_string()]), 1);
    assert_eq!(m.total_rule_count(), 1);
    let names = m.begin_rebuild();
    assert_eq!(names, vec!["a"]);
    assert_eq!(m.total_rule_count(), 0);
    assert!(!m.is_blocked("old.com"));
    assert_eq!(m.apply_list_lines(&vec!["! list".to_string(), "||new.com^$script".to_string()]), 1);
    assert!(m.is_blocked_ex("new.com", None, rt::SCRIPT, false));
    assert!(!m.is_blocked_ex("new.com", None, rt::IMAGE, false));
    assert_eq!(m.tree().count_blocked(), 1);
}

#[test]
fn readme_subdomain_matching_example() {
    let mut tree = DomainTree::new();
    tree.insert("ads.com");
    tree.insert_with_whitelist("ads.com", "mysite.com");
    assert!(!tree.is_blocked_with_origin("ads.com", Some("mysite.com")));
    assert!(!tree.is_blocked_with_origin("sub.ads.com", Some("mysite.com")));
    assert!(!tree.is_blocked_with_origin("ads.com", Some("sub.mysite.com")));
    assert!(tree.is_blocked_with_origin("ads.com", Some("other.com")));
}

#[test]
fn whitelist_blocks_everywhere_else() {
    let mut tree = DomainTree::new();
    assert!(tree.insert_with_whitelist("analytics.com", "mysite.com"));
    assert!(!tree.is_blocked_with_origin("analytics.com", Some("mysite.com")));
    assert!(!tree.is_blocked_with_origin("analytics.com", Some("www.mysite.com")));
    assert!(tree.is_blocked_with_origin("analytics.com", Some("other.com")));
    assert!(tree.is_blocked_with_origin("sub.analytics.com", Some("notmysite.com")));
    assert!(tree.is_blocked("analytics.com"));
    assert_eq!(tree.count_blocked(), 1);
}

#[test]
fn whitelist_survives_the_cache() {
    let mut tree = DomainTree::new();
    tree.insert_with_whitelist("analytics.com", "mysite.com");
    let bytes = tree.to_bytes();
    let loaded = DomainTree::from_bytes(&bytes).unwrap();
    assert_eq!(loaded.count_blocked(), 1);
    assert_eq!(loaded.to_bytes(), bytes);
    assert!(!loaded.is_blocked_with_origin("analytics.com", Some("mysite.com")));
    assert!(loaded.is_blocked_with_origin("analytics.com", Some("other.com")));
    assert!(loaded.is_blocked("analytics.com"));
}

#[test]
fn whitelist_rule_acts_on_every_origin() {
    let mut tree = DomainTree::new();
    tree.insert_with_modifiers(
        "cdn.com",
        Action::Whitelist,
        OriginConstraint::OnlyOn(vec!["a.org".to_string()]),
        rt::ALL,
        false,
    );
    assert!(!tree.is_blocked_with_origin("cdn.com", Some("a.org")));
    assert!(tree.is_blocked_with_origin("cdn.com", Some("b.org")));
    // An exception on the origin alone blocks nothing elsewhere.
    let mut other = DomainTree::new();
    other.insert_with_modifiers(
        "cdn.com",
        Action::Allow,
        OriginConstraint::OnlyOn(vec!["a.org".to_string()]),
        rt::ALL,
        false,
    );
    assert!(!other.is_blocked_with_origin("cdn.com", Some("b.org")));
}

#[test]
fn all_blocked_names_are_distinct() {
    let mut tree = DomainTree::new();
    tree.insert("a.com");
    tree.insert("a.com");
    tree.insert("b.a.com");
    tree.insert_with_blacklist("a.com", "x.org");
    let all = tree.get_all_blocked();
    let mut sorted = all.clone();
    sorted.sort();
    sorted.dedup();
    assert_eq!(sorted.len(), all.len());
    assert_eq!(sorted, vec!["a.com", "b.a.com"]);
    assert!(all.len() <= tree.count_blocked());
}

#[test]
fn blacklist_only_on_origin() {
    let mut tree = DomainTree::new();
    assert!(tree.insert_with_blacklist("popups.com", "spamsite.com"));
    assert!(tree.is_blocked_with_origin("x.popups.com", Some("www.spamsite.com")));
    assert!(!tree.is_blocked_with_origin("popups.com", Some("notspamsite.com")));
    assert!(!tree.is_blocked("popups.com"));
}

#[test]
fn cosmetic_rule_counts_and_emptiness() {
    let mut engine = CosmeticEngine::new();
    assert!(engine.is_empty());
    assert_eq!(engine.build_bundle("a.com"), "");
    engine.insert_line("a.com,b.com,c.com##.x");
    assert_eq!(engine.total_rules(), 3);
    engine.insert_line("~d.com##.n");
    engine.insert_line("~e.com##.n");
    assert_eq!(engine.total_rules(), 4);
    assert!(!engine.insert_line("not a rule"));
    assert_eq!(engine.total_rules(), 4);
    assert!(!engine.is_empty());
    assert_eq!(engine.build_bundle_lowered("..a.com.."), engine.build_bundle_lowered("a.com"));
}

#[test]
fn list_file_counts_rule_lines() {
    let mut tree = DomainTree::new();
    tree.insert("kept.com");
    let lines: Vec<String> = vec![
        "! Title: test".to_string(),
        "".to_string(),
        "||ads.com^".to_string(),
        "example.com##.banner".to_string(),
        "/regex/".to_string(),
        "@@||ok.ads.com^".to_string(),
        "||localhost^".to_string(),
        "||t.net^$third-party".to_string(),
    ];
    assert_eq!(insert_list_lines(&mut tree, &lines), 3);
    assert_eq!(tree.count_blocked(), 4);
    assert!(tree.is_blocked("kept.com"));
    assert!(tree.is_blocked("x.ads.com"));
    assert!(!tree.is_blocked("ok.ads.com"));
    assert!(tree.is_blocked_ex("t.net", None, rt::ALL, true));
    assert!(!tree.is_blocked_ex("t.net", None, rt::ALL, false));
}

#[test]
fn rebuild_skips_disabled_lists() {
    let mut m = FilterListManager::new("/tmp");
    m.register_list("on", "u1").unwrap();
    m.register_list("off", "u2").unwrap();
    m.set_list_enabled("off", false).unwrap();
    let names = m.begin_rebuild();
    assert_eq!(names, vec!["on"]);
    let count = m.apply_list_lines(&vec!["||a.com^".to_string(), "||b.com^".to_string()]);
    m.set_rule_count("on", count);
    assert_eq!(m.get_list_info("on").unwrap().rule_count, 2);
    assert_eq!(m.get_list_info("off").unwrap().rule_count, 0);
    assert_eq!(m.total_rule_count(), 2);
}

#[test]
fn fetch_records_list_and_keeps_validators_when_not_modified() {
    let mut m = FilterListManager::new("/tmp");
    m.register_list("a", "https://x/a.txt").unwrap();
    let count = m.apply_list_lines(&vec!["||a.com^".to_string()]);
    m.record_fetch("a", false, Some("e1".to_string()), Some("lm1".to_string()), 100, count);
    let info = m.get_list_info("a").unwrap();
    assert_eq!(info.etag.as_deref(), Some("e1"));
    assert_eq!(info.rule_count, 1);
    assert_eq!(info.last_fetched_secs, Some(100));
    m.record_fetch("a", true, None, None, 200, 1);
    let info = m.get_list_info("a").unwrap();
    assert_eq!(info.etag.as_deref(), Some("e1"));
    assert_eq!(info.last_modified.as_deref(), Some("lm1"));
    assert_eq!(info.last_fetched_secs, Some(200));
    assert!(m.is_blocked("a.com"));
}
