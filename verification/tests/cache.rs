use creskydns::config::{CacheConfig, CacheType, Config, DomainList, LogConfig, RuleGroup, UpstreamList};
use creskydns::dns::{
    answer_count, extract_min_ttl, get_qname, message_authoritative, message_id, message_is_response,
    message_opcode, message_rcode, message_recursion_available, message_recursion_desired,
};
use creskydns::domain_cache::DomainCache;
use creskydns::engine::{select_upstream, Selection};
use creskydns::pipeline::{cache_lookup, record_result, CacheManager};
use creskydns::rule_cache::RuleCache;
use creskydns::transport::create_rcode_response;

use hickory_proto::op::{Message, Query};
use hickory_proto::rr::{Name, RecordType};
use std::str::FromStr;

fn query_message(name: &str) -> Message {
    let mut msg = Message::new();
    msg.set_id(0x1234);
    let qname = Name::from_str(name).unwrap();
    msg.add_query(Query::query(qname, RecordType::A));
    msg
}

#[test]
fn test_domain_cache_basic() {
    let mut cache = DomainCache::new("test".to_string(), 10, None, None);

    let msg = query_message("example.com.");

    cache.insert(
        "example.com".to_string(),
        "test_cache".to_string(),
        "example.com".to_string(),
        "test_upstream".to_string(),
        msg.clone(),
        300,
        1000,
        1000,
    );

    assert!(cache.get("example.com", 1000).is_some());
    assert!(cache.get("not-exist.com", 1000).is_none());

    let stats = cache.stats(1000);
    assert_eq!(stats.total, 1);
    assert_eq!(stats.valid, 1);
}

#[test]
fn test_domain_cache_ttl_limits() {
    let cache = DomainCache::new("test".to_string(), 10, Some(100), Some(500));

    assert_eq!(cache.adjust_ttl(50), 100);
    assert_eq!(cache.adjust_ttl(300), 300);
    assert_eq!(cache.adjust_ttl(1000), 500);
}

#[test]
fn test_domain_cache_expiry() {
    let mut cache = DomainCache::new("test".to_string(), 10, None, None);

    let msg = query_message("example.com.");

    cache.insert(
        "example.com".to_string(),
        "test_cache".to_string(),
        "example.com".to_string(),
        "test_upstream".to_string(),
        msg,
        0,
        1000,
        1000,
    );

    assert!(cache.get("example.com", 1000).is_none());
}

#[test]
fn test_domain_cache_eviction() {
    let mut cache = DomainCache::new("small".to_string(), 1, None, None);
    cache.insert(
        "a.com".to_string(),
        "u".to_string(),
        "a.com".to_string(),
        "u".to_string(),
        query_message("a.com."),
        100,
        1000,
        1000,
    );
    cache.insert(
        "b.com".to_string(),
        "u".to_string(),
        "b.com".to_string(),
        "u".to_string(),
        query_message("b.com."),
        100,
        1001,
        1001,
    );
    // the earlier-expiring entry made room
    assert!(cache.get("a.com", 1002).is_none());
    assert!(cache.get("b.com", 1002).is_some());
}

fn base_config() -> Config {
    Config {
        log: LogConfig::default(),
        listener: vec![("rule".to_string(), 53)],
        lists: vec![],
        upstreams: vec![
            UpstreamList {
                name: "U1".to_string(),
                addr: vec!["udp://1.1.1.1:53".to_string()],
                bootstrap: None,
                proxy: None,
            },
            UpstreamList {
                name: "U2".to_string(),
                addr: vec!["udp://8.8.8.8:53".to_string()],
                bootstrap: None,
                proxy: None,
            },
        ],
        rules: vec![],
        final_rule: None,
        timeout_secs: 5,
        cache: vec![],
    }
}

fn list(name: &str, domains: &[&str]) -> DomainList {
    DomainList {
        name: name.to_string(),
        kind: "direct".to_string(),
        format: "text".to_string(),
        path: None,
        url: None,
        domains: domains.iter().map(|d| d.to_string()).collect(),
        interval: 0,
        hit_path: None,
    }
}

#[test]
fn test_deeper_match_wins_within_group() {
    let mut cfg = base_config();
    cfg.lists = vec![list("L1", &["google.com"]), list("L2", &["www.google.com"])];
    cfg.rules = vec![RuleGroup {
        name: "main".to_string(),
        rules: vec!["L1,U1".to_string(), "L2,U2".to_string()],
    }];

    match select_upstream(&cfg, "www.google.com", None).unwrap() {
        Selection::Group { upstream, matched_domain, depth, .. } => {
            assert_eq!(upstream, "U2");
            assert_eq!(matched_domain, "www.google.com");
            assert_eq!(depth, 3);
        }
        other => panic!("unexpected selection: {:?}", other),
    }
}

#[test]
fn test_later_rule_wins_on_tie() {
    let mut cfg = base_config();
    cfg.lists = vec![list("L1", &["example.com"]), list("L2", &["example.com"])];
    cfg.rules = vec![RuleGroup {
        name: "main".to_string(),
        rules: vec!["L1,U1".to_string(), "L2,U2".to_string()],
    }];

    match select_upstream(&cfg, "example.com", None).unwrap() {
        Selection::Group { upstream, rule_index, .. } => {
            assert_eq!(upstream, "U2");
            assert_eq!(rule_index, 1);
        }
        other => panic!("unexpected selection: {:?}", other),
    }
}

#[test]
fn test_group_order_beats_depth() {
    let mut cfg = base_config();
    cfg.lists = vec![list("L_tld", &["com"]), list("L_exact", &["www.example.com"])];
    cfg.rules = vec![
        RuleGroup { name: "a".to_string(), rules: vec!["L_tld,U1".to_string()] },
        RuleGroup { name: "b".to_string(), rules: vec!["L_exact,U2".to_string()] },
    ];

    match select_upstream(&cfg, "www.example.com", None).unwrap() {
        Selection::Group { upstream, group, .. } => {
            assert_eq!(upstream, "U1");
            assert_eq!(group, "a");
        }
        other => panic!("unexpected selection: {:?}", other),
    }
}

#[test]
fn test_servers_group_matches_listener_and_is_not_cached() {
    let mut cfg = base_config();
    cfg.lists = vec![list("L1", &["example.com"])];
    cfg.rules = vec![
        RuleGroup { name: "servers".to_string(), rules: vec!["trusted,U2".to_string()] },
        RuleGroup { name: "main".to_string(), rules: vec!["L1,U1".to_string()] },
    ];

    let sel = select_upstream(&cfg, "example.com", Some("trusted")).unwrap();
    match &sel {
        Selection::Servers { upstream } => assert_eq!(upstream, "U2"),
        other => panic!("unexpected selection: {:?}", other),
    }

    // a servers selection leaves both caches untouched
    let mut rc = RuleCache::new();
    let mut dc = DomainCache::new("domain".to_string(), 10, None, None);
    let response = query_message("example.com.");
    let cached = record_result(&mut rc, &mut dc, &sel, "example.com", &response, 1000, 1000);
    assert!(!cached);
    assert_eq!(rc.stats().total, 0);
    assert_eq!(dc.stats(1000).total, 0);

    // without the listener, the ordinary group fires
    match select_upstream(&cfg, "example.com", None).unwrap() {
        Selection::Group { upstream, .. } => assert_eq!(upstream, "U1"),
        other => panic!("unexpected selection: {:?}", other),
    }
}

#[test]
fn test_default_upstream_fallback() {
    let mut cfg = base_config();
    cfg.upstreams.push(UpstreamList {
        name: "default_dns".to_string(),
        addr: vec!["udp://9.9.9.9:53".to_string()],
        bootstrap: None,
        proxy: None,
    });

    match select_upstream(&cfg, "nomatch.example", None).unwrap() {
        Selection::Default { upstream } => assert_eq!(upstream, "default_dns"),
        other => panic!("unexpected selection: {:?}", other),
    }
}

#[test]
fn test_final_rule_selected_when_configured() {
    let mut cfg = base_config();
    cfg.final_rule = Some(creskydns::config::FinalRule {
        primary_upstream: "U1".to_string(),
        fallback_upstream: "U2".to_string(),
        ipcidr: "cn".to_string(),
        output: None,
    });
    match select_upstream(&cfg, "nomatch.example", None).unwrap() {
        Selection::Final => {}
        other => panic!("unexpected selection: {:?}", other),
    }
}

#[test]
fn test_cache_hit_after_record() {
    let mut cfg = base_config();
    cfg.lists = vec![list("L1", &["google.com"])];
    cfg.rules = vec![RuleGroup {
        name: "main".to_string(),
        rules: vec!["L1,U1".to_string()],
    }];

    let mut rc = RuleCache::new();
    let mut dc = DomainCache::new("domain".to_string(), 10, None, None);

    assert!(cache_lookup(&rc, &mut dc, "www.google.com", 1000).is_none());

    let sel = select_upstream(&cfg, "www.google.com", None).unwrap();
    let response = query_message("www.google.com.");
    let cached = record_result(&mut rc, &mut dc, &sel, "www.google.com", &response, 1000, 1000);
    assert!(cached);

    let hit = cache_lookup(&rc, &mut dc, "www.google.com", 1010).expect("expected a cache hit");
    assert_eq!(get_qname(&hit), get_qname(&response));

    // past the stored TTL (no records: default 300 seconds) the entry is gone
    assert!(cache_lookup(&rc, &mut dc, "www.google.com", 1000 + 301).is_none());
}

#[test]
fn test_rcode_synthesis() {
    let request = query_message("ads.example.com.");
    let response = create_rcode_response(&request, 3);
    assert_eq!(message_rcode(&response), 3);
    assert_eq!(message_id(&response), message_id(&request));
    assert_eq!(answer_count(&response), 0);
    assert_eq!(get_qname(&response), Some("ads.example.com.".to_string()));

    // unknown numeric codes collapse to SERVFAIL
    let response = create_rcode_response(&request, 999);
    assert_eq!(message_rcode(&response), 2);
}

#[test]
fn test_rule_cache_persistence_round_trip() {
    let mut rc = RuleCache::new();
    rc.insert("google.com".to_string(), "U1".to_string(), "U1".to_string());
    rc.insert("example.com".to_string(), "U2".to_string(), "U2".to_string());
    rc.insert("a.test".to_string(), "U1".to_string(), "U1".to_string());

    let text = rc.render_to_text();
    // sorted by matched domain
    assert_eq!(
        text,
        "|U1|a.test|U1|\n|U2|example.com|U2|\n|U1|google.com|U1|\n"
    );

    let mut loaded = RuleCache::new();
    loaded.load_from_text(&text);
    assert_eq!(loaded.stats().total, 3);
    assert_eq!(loaded.get("google.com"), Some(("U1".to_string(), "U1".to_string())));
    assert_eq!(loaded.get("example.com"), Some(("U2".to_string(), "U2".to_string())));
    assert_eq!(loaded.get("a.test"), Some(("U1".to_string(), "U1".to_string())));
    assert_eq!(loaded.get("missing"), None);
}

#[test]
fn test_rule_cache_load_skips_bad_lines() {
    let mut rc = RuleCache::new();
    rc.load_from_text("\n|U1|google.com|U1|\nnot a line\n|too|few|\n|U2|b.com|U2|\n");
    assert_eq!(rc.stats().total, 2);
    assert!(rc.get("google.com").is_some());
    assert!(rc.get("b.com").is_some());
}

#[test]
fn test_cold_start_drops_root_and_stale_entries() {
    let mut cfg = base_config();
    cfg.lists = vec![list("L1", &["google.com"])];
    cfg.rules = vec![RuleGroup {
        name: "main".to_string(),
        rules: vec!["L1,U1".to_string()],
    }];
    cfg.cache = vec![
        (
            "rule".to_string(),
            CacheConfig {
                kind: CacheType::Rule,
                size: Some(100),
                min_ttl: None,
                max_ttl: None,
                output: None,
                cold_start: None,
                interval: "5m".to_string(),
            },
        ),
        (
            "domain".to_string(),
            CacheConfig {
                kind: CacheType::Domain,
                size: Some(100),
                min_ttl: None,
                max_ttl: None,
                output: None,
                cold_start: None,
                interval: "5m".to_string(),
            },
        ),
    ];

    let mut mgr = CacheManager::new(&cfg.cache, "U1".to_string());
    assert!(mgr.get_rule_cache().is_some());
    assert!(mgr.get_domain_cache("domain").is_some());

    match &mut mgr.rule_cache {
        Some(rc) => {
            rc.insert(".".to_string(), "U1".to_string(), "U1".to_string());
            rc.insert("google.com".to_string(), "U1".to_string(), "U1".to_string());
            rc.insert("stale.example".to_string(), "U2".to_string(), "U2".to_string());
        }
        None => unreachable!(),
    }
    mgr.domain_caches[0].1.insert(
        "www.google.com".to_string(),
        "U1".to_string(),
        "google.com".to_string(),
        "U1".to_string(),
        query_message("www.google.com."),
        300,
        1000,
        1000,
    );
    mgr.domain_caches[0].1.insert(
        "old.example".to_string(),
        "U2".to_string(),
        "stale.example".to_string(),
        "U2".to_string(),
        query_message("old.example."),
        300,
        1000,
        1000,
    );

    let warm = mgr.cold_start(&cfg);

    let rc = mgr.get_rule_cache().unwrap();
    assert_eq!(rc.stats().total, 1);
    assert!(rc.get("google.com").is_some());
    assert!(rc.get(".").is_none());
    assert!(rc.get("stale.example").is_none());

    assert_eq!(warm.len(), 1);
    assert_eq!(warm[0].0, "www.google.com");
    assert_eq!(warm[0].1, "google.com");
    assert_eq!(warm[0].2, "U1");
}

#[test]
fn test_codec_round_trip() {
    let request = query_message("example.com.");
    let bytes = creskydns::dns::encode_dns(&request).unwrap();
    let parsed = creskydns::dns::parse_dns(&bytes).unwrap();
    assert_eq!(get_qname(&parsed), Some("example.com.".to_string()));
    assert_eq!(message_id(&parsed), 0x1234);
    assert!(creskydns::dns::parse_dns(&[1, 2, 3]).is_err());
}

fn a_record(name: &str, ttl: u32, ip: [u8; 4]) -> hickory_proto::rr::Record {
    let rname = Name::from_str(name).unwrap();
    let rdata = hickory_proto::rr::RData::A(hickory_proto::rr::rdata::A(core::net::Ipv4Addr::new(
        ip[0], ip[1], ip[2], ip[3],
    )));
    hickory_proto::rr::Record::from_rdata(rname, ttl, rdata)
}

#[test]
fn test_min_ttl_prefers_smallest_positive() {
    // no records: the 300-second default
    let empty = query_message("a.example.");
    assert_eq!(extract_min_ttl(&empty), 300);

    // a single record above 300 wins over the default
    let mut msg = query_message("a.example.");
    msg.add_answer(a_record("a.example.", 600, [1, 2, 3, 4]));
    assert_eq!(extract_min_ttl(&msg), 600);

    // zero TTLs are ignored; the smallest positive one wins
    let mut msg = query_message("a.example.");
    msg.add_answer(a_record("a.example.", 0, [1, 2, 3, 4]));
    msg.add_answer(a_record("a.example.", 900, [1, 2, 3, 5]));
    msg.add_answer(a_record("a.example.", 120, [1, 2, 3, 6]));
    assert_eq!(extract_min_ttl(&msg), 120);
}

#[test]
fn test_rcode_synthesis_flags() {
    let mut request = query_message("ads.example.com.");
    request.set_recursion_desired(true);
    let response = create_rcode_response(&request, 3);
    assert!(message_is_response(&response));
    assert!(!message_authoritative(&response));
    assert!(message_recursion_available(&response));
    assert_eq!(message_recursion_desired(&response), message_recursion_desired(&request));
    assert_eq!(message_opcode(&response), message_opcode(&request));
}

#[test]
fn test_domain_cache_persistence_round_trip() {
    let mut cache = DomainCache::new("domain".to_string(), 10, None, None);
    let mut msg = query_message("www.google.com.");
    msg.add_answer(a_record("www.google.com.", 600, [1, 2, 3, 4]));
    cache.insert(
        "www.google.com".to_string(),
        "U1".to_string(),
        "google.com".to_string(),
        "U1".to_string(),
        msg,
        300,
        1000,
        42,
    );

    let text = cache.render_to_text(1100);
    assert_eq!(text, "|U1|google.com|U1|www.google.com|200|1.2.3.4|\n");

    let mut loaded = DomainCache::new("domain".to_string(), 10, None, None);
    loaded.load_from_text(&text, 50, 77);
    assert_eq!(loaded.records.len(), 1);
    let rec = &loaded.records[0];
    assert_eq!(rec.domain, "www.google.com");
    assert_eq!(rec.matched_domain, "google.com");
    assert_eq!(rec.upstream, "U1");
    assert_eq!(rec.cache_id, "U1");
    assert_eq!(rec.original_ttl, 200);
    assert_eq!(rec.expire_at, 250);
    assert_eq!(rec.timestamp, 77);
    assert!(rec.message.is_none());
    // a placeholder never answers a query
    assert!(loaded.get("www.google.com", 60).is_none());
}

#[test]
fn test_get_upstream_for_listener() {
    let mut cfg = base_config();
    cfg.rules = vec![RuleGroup {
        name: "servers".to_string(),
        rules: vec!["trusted,U2".to_string()],
    }];
    assert_eq!(cfg.get_upstream_for_listener("trusted").unwrap().name, "U2");
    // no rule names this listener: the first upstream stands in
    assert_eq!(cfg.get_upstream_for_listener("other").unwrap().name, "U1");
    // a matching rule naming an unconfigured upstream is an error
    cfg.rules = vec![RuleGroup {
        name: "servers".to_string(),
        rules: vec!["trusted,NOPE".to_string()],
    }];
    assert!(cfg.get_upstream_for_listener("trusted").is_err());
}
