use creskydns::config::Config;
use creskydns::domain::{domain_depth, domain_labels, domain_matches, suffix_at_depth};
use creskydns::log::{parse_log_line, parse_size};
use creskydns::domain_cache::DomainCache;
use creskydns::transport::{
    doh_extract_body, doh_http_request, doq_with_proxy_rejected, is_ip_in_cidr_list, ip_in_cidr,
    parse_address, parse_doh_url, parse_ipv4, parse_protocol, tcp_len_ok, HttpError, Protocol,
};

#[test]
fn test_depth_calculation() {
    assert_eq!(domain_depth("."), 0);

    assert_eq!(domain_depth("com"), 1);
    assert_eq!(domain_depth("net"), 1);
    assert_eq!(domain_depth("org"), 1);

    assert_eq!(domain_depth("google.com"), 2);
    assert_eq!(domain_depth("baidu.com"), 2);
    assert_eq!(domain_depth("example.com"), 2);

    assert_eq!(domain_depth("www.google.com"), 3);
    assert_eq!(domain_depth("api.google.com"), 3);
    assert_eq!(domain_depth("mail.google.com"), 3);

    assert_eq!(domain_depth("api.service.example.com"), 4);
    assert_eq!(domain_depth("v1.api.service.example.com"), 5);
}

#[test]
fn test_depth_matching_priority() {
    let match_google = "google.com";
    let match_www = "www.google.com";

    let depth_google = domain_depth(match_google);
    let depth_www = domain_depth(match_www);

    assert_eq!(depth_google, 2);
    assert_eq!(depth_www, 3);
    assert!(depth_www > depth_google, "www.google.com 深度应该大于 google.com");
}

#[test]
fn test_depth_generation_from_query() {
    let query = "www.google.com";
    let labels = domain_labels(query);

    let mut domains: Vec<(String, usize)> = vec![];
    for depth in 0..=labels.len() {
        domains.push((suffix_at_depth(&labels, depth), depth));
    }

    assert_eq!(domains.len(), 4);
    assert_eq!(domains[0].0, ".");
    assert_eq!(domains[0].1, 0);
    assert_eq!(domains[1].1, 1);
    assert_eq!(domains[2].1, 2);
    assert_eq!(domains[3].1, 3);
    assert_eq!(domains[1].0, "com");
    assert_eq!(domains[2].0, "google.com");
    assert_eq!(domains[3].0, "www.google.com");
}

#[test]
fn test_parse_size() {
    assert_eq!(parse_size("100MB").unwrap(), 100 * 1024 * 1024);
    assert_eq!(parse_size("1GB").unwrap(), 1024 * 1024 * 1024);
    assert_eq!(parse_size("500KB").unwrap(), 500 * 1024);
}

#[test]
fn test_parse_log_line() {
    let (level, module, msg) = parse_log_line("INFO main: DNS 转发器启动");
    assert_eq!(level, "INFO");
    assert_eq!(module, "main");
    assert_eq!(msg, "DNS 转发器启动");
}

#[test]
fn test_parse_size_plain_and_bad() {
    assert_eq!(parse_size("4096"), Some(4096));
    assert_eq!(parse_size(" 2 kb "), Some(2 * 1024));
    assert_eq!(parse_size("abc"), None);
    assert_eq!(parse_size(""), None);
}

#[test]
fn test_domain_matches_suffix_and_root() {
    assert!(domain_matches("www.google.com", "google.com"));
    assert!(domain_matches("google.com", "google.com"));
    assert!(domain_matches("anything.example", "."));
    assert!(!domain_matches("google.com", "www.google.com"));
    assert!(!domain_matches("notgoogle.com", "google.com"));
}

#[test]
fn test_parse_interval() {
    assert_eq!(Config::parse_interval("5m").unwrap(), 300);
    assert_eq!(Config::parse_interval("1h").unwrap(), 3600);
    assert_eq!(Config::parse_interval("30s").unwrap(), 30);
    assert_eq!(Config::parse_interval("2d").unwrap(), 172800);
    assert_eq!(Config::parse_interval("45").unwrap(), 45);
    assert_eq!(Config::parse_interval(""), Ok(300));
    assert!(Config::parse_interval("5x").is_err());
    assert!(Config::parse_interval("m").is_err());
}

#[test]
fn test_parse_protocol_schemes() {
    assert_eq!(parse_protocol("udp://1.1.1.1:53"), Protocol::Udp);
    assert_eq!(parse_protocol("tcp://1.1.1.1:53"), Protocol::Tcp);
    assert_eq!(parse_protocol("tls://dns.example:853"), Protocol::Dot);
    assert_eq!(parse_protocol("https://dns.example/dns-query"), Protocol::Doh);
    assert_eq!(parse_protocol("doq://dns.example"), Protocol::Doq);
    assert_eq!(parse_protocol("quic://dns.example"), Protocol::Doq);
    assert_eq!(parse_protocol("1.1.1.1:53"), Protocol::Udp);
    assert_eq!(parse_protocol("rcode://3"), Protocol::Rcode(3));
    assert_eq!(parse_protocol("rcode://NXDOMAIN"), Protocol::Rcode(3));
    assert_eq!(parse_protocol("rcode://refused"), Protocol::Rcode(5));
    assert_eq!(parse_protocol("rcode://bogus"), Protocol::Rcode(3));
}

#[test]
fn test_parse_address_forms() {
    assert_eq!(parse_address("udp://8.8.8.8:53"), Some(("8.8.8.8".to_string(), 53)));
    assert_eq!(parse_address("tls://dns.example:853"), Some(("dns.example".to_string(), 853)));
    assert_eq!(parse_address("9.9.9.9"), Some(("9.9.9.9".to_string(), 53)));
    assert_eq!(
        parse_address("https://dns.example/dns-query"),
        Some(("https://dns.example/dns-query".to_string(), 443))
    );
    assert_eq!(parse_address("udp://1.1.1.1:99999"), None);
}

#[test]
fn test_ipv4_and_cidr() {
    assert_eq!(parse_ipv4("1.2.3.4"), Some(0x01020304));
    assert_eq!(parse_ipv4("255.255.255.255"), Some(0xFFFFFFFF));
    assert_eq!(parse_ipv4("256.0.0.1"), None);
    assert_eq!(parse_ipv4("1.2.3"), None);
    assert_eq!(parse_ipv4("2001:db8::1"), None);

    let ip = parse_ipv4("39.156.10.20").unwrap();
    assert!(ip_in_cidr(ip, "39.156.0.0/16"));
    assert!(!ip_in_cidr(ip, "40.0.0.0/8"));

    let list = vec![
        "|10.0.0.0/8|US|".to_string(),
        "|39.156.0.0/16|CN|".to_string(),
    ];
    assert!(is_ip_in_cidr_list("39.156.10.20", &list));
    assert!(!is_ip_in_cidr_list("8.8.8.8", &list));
    assert!(!is_ip_in_cidr_list("2001:db8::1", &list));
}

#[test]
fn test_validate_listener_ports() {
    let mut cfg = test_config();
    cfg.listener = vec![("rule".to_string(), 53), ("other".to_string(), 5353)];
    assert!(cfg.validate_listener_ports().is_ok());

    cfg.listener = vec![("other".to_string(), 53)];
    assert!(cfg.validate_listener_ports().is_err());

    cfg.listener = vec![("other".to_string(), 80)];
    assert!(cfg.validate_listener_ports().is_err());
}

fn test_config() -> Config {
    Config {
        log: creskydns::config::LogConfig::default(),
        listener: vec![],
        lists: vec![],
        upstreams: vec![],
        rules: vec![],
        final_rule: None,
        timeout_secs: 5,
        cache: vec![],
    }
}

#[test]
fn test_hit_file_path() {
    let mut l = list_named("cn", Some("data/cn.txt"));
    assert_eq!(l.hit_file_path(), Some("data/cn.hit.txt".to_string()));

    l.path = Some("cn.txt".to_string());
    assert_eq!(l.hit_file_path(), Some("./cn.hit.txt".to_string()));

    l.path = Some("data/cn.hit.txt".to_string());
    assert_eq!(l.hit_file_path(), None);

    l.path = None;
    assert_eq!(l.hit_file_path(), Some("./cn.hit.txt".to_string()));
}

fn list_named(name: &str, path: Option<&str>) -> creskydns::config::DomainList {
    creskydns::config::DomainList {
        name: name.to_string(),
        kind: "direct".to_string(),
        format: "text".to_string(),
        path: path.map(|p| p.to_string()),
        url: None,
        domains: vec![],
        interval: 0,
        hit_path: None,
    }
}

#[test]
fn test_doh_url_and_request() {
    assert_eq!(
        parse_doh_url("https://dns.example/dns-query"),
        Some(("dns.example".to_string(), 443, "/dns-query".to_string()))
    );
    assert_eq!(
        parse_doh_url("https://dns.example:8443"),
        Some(("dns.example".to_string(), 8443, "/dns-query".to_string()))
    );
    assert_eq!(parse_doh_url("udp://1.1.1.1:53"), None);

    let req = doh_http_request("/dns-query", "dns.example", "AAAA");
    assert_eq!(
        req,
        "GET /dns-query?dns=AAAA HTTP/1.1\r\nHost: dns.example\r\nAccept: application/dns-message\r\nConnection: close\r\n\r\n"
    );
}

#[test]
fn test_doh_extract_body() {
    let ok = b"HTTP/1.1 200 OK\r\nContent-Type: application/dns-message\r\n\r\n\x01\x02\n\x03";
    assert_eq!(doh_extract_body(ok), Ok(vec![1u8, 2, 10, 3]));

    let bad = b"HTTP/1.1 404 Not Found\r\nContent-Length: 0\r\n\r\n";
    assert_eq!(doh_extract_body(bad), Err(HttpError::BadStatus));

    let cut = b"HTTP/1.1 200 OK\r\nContent-";
    assert_eq!(doh_extract_body(cut), Err(HttpError::MissingSeparator));
}

#[test]
fn test_stream_rules() {
    assert!(!tcp_len_ok(0));
    assert!(tcp_len_ok(1));
    assert!(tcp_len_ok(4096));
    assert!(!tcp_len_ok(4097));

    assert!(doq_with_proxy_rejected(Protocol::Doq, true));
    assert!(!doq_with_proxy_rejected(Protocol::Doq, false));
    assert!(!doq_with_proxy_rejected(Protocol::Dot, true));
}

#[test]
fn test_domain_cache_size_cap() {
    let mut cache = DomainCache::new("t".to_string(), 2, None, None);
    for (i, name) in ["a.x", "b.x", "c.x", "d.x"].iter().enumerate() {
        cache.insert(
            name.to_string(),
            "u".to_string(),
            name.to_string(),
            "u".to_string(),
            creskydns_query(name),
            100 + i as u64,
            1000 + i as u64,
            1000,
        );
        assert!(cache.records.len() <= 2);
    }
}

fn creskydns_query(name: &str) -> hickory_proto::op::Message {
    let mut msg = hickory_proto::op::Message::new();
    let qname = hickory_proto::rr::Name::from_str(&format!("{}.", name)).unwrap();
    msg.add_query(hickory_proto::op::Query::query(qname, hickory_proto::rr::RecordType::A));
    msg
}

use std::str::FromStr;
