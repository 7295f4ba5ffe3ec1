use dns_enum::config::EnumConfig;
use dns_enum::dns::{create_resolver, enumerate};

fn b(s: &str) -> Vec<u8> {
    s.as_bytes().to_vec()
}

#[test]
fn enumerate_no_candidates_is_ok_and_empty() {
    let config = EnumConfig::new(b("example.com"), None, 3, 1).unwrap();
    let words: Vec<Vec<u8>> = Vec::new();
    let r = enumerate(&b("example.com"), &words, &config).unwrap();
    assert_eq!(r.len(), 0);
}

#[test]
fn resolver_builds_for_custom_server() {
    // Construction only; no query is ever issued.
    let config = EnumConfig::new(b("example.com"), Some(b("127.0.0.1")), 1, 1).unwrap();
    assert!(create_resolver(&config).is_some());
}
