use dns_enum::config::{plan_resolver, EnumConfig, ResolverPlan};
use dns_enum::dns::EnumError;

fn b(s: &str) -> Vec<u8> {
    s.as_bytes().to_vec()
}

fn cfg(dns_server: Option<Vec<u8>>) -> EnumConfig {
    EnumConfig::new(b("example.com"), dns_server, 10, 5).unwrap()
}

#[test]
fn config_rejects_zero_threads_or_timeout() {
    assert!(EnumConfig::new(b("e.com"), None, 0, 5).is_none());
    assert!(EnumConfig::new(b("e.com"), None, 10, 0).is_none());
    let c = EnumConfig::new(b("e.com"), None, 10, 5).unwrap();
    assert_eq!(c.threads, 10);
    assert_eq!(c.timeout, 5);
}

#[test]
fn valid_ipv4_server_taken_custom() {
    let plan = plan_resolver(&cfg(Some(b("8.8.8.8"))));
    match plan {
        ResolverPlan::Custom { socket_text, timeout } => {
            assert_eq!(socket_text, b("8.8.8.8:53"));
            assert_eq!(timeout, 5);
        },
        ResolverPlan::SystemDefault { .. } => panic!("expected the custom plan"),
    }
}

#[test]
fn valid_ipv6_server_taken_custom_with_brackets() {
    let plan = plan_resolver(&cfg(Some(b("2001:db8::1"))));
    match plan {
        ResolverPlan::Custom { socket_text, timeout } => {
            assert_eq!(socket_text, b("[2001:db8::1]:53"));
            assert_eq!(timeout, 5);
        },
        ResolverPlan::SystemDefault { .. } => panic!("expected the custom plan"),
    }
}

#[test]
fn invalid_server_behaves_like_no_server() {
    let with_bad = plan_resolver(&cfg(Some(b("not an ip"))));
    let with_none = plan_resolver(&cfg(None));
    let t1 = match with_bad {
        ResolverPlan::SystemDefault { timeout } => timeout,
        ResolverPlan::Custom { .. } => panic!("an invalid server must not be queried"),
    };
    let t2 = match with_none {
        ResolverPlan::SystemDefault { timeout } => timeout,
        ResolverPlan::Custom { .. } => panic!("no server configured"),
    };
    assert_eq!(t1, t2);
}

#[test]
fn more_invalid_servers_fall_back() {
    for s in ["256.1.1.1", "dns.example.com", "8.8.8.8:53", "1:::2", ""] {
        let plan = plan_resolver(&cfg(Some(b(s))));
        assert!(matches!(plan, ResolverPlan::SystemDefault { .. }), "{s}");
    }
}

#[test]
fn error_message_text() {
    let e = EnumError::ResolverUnavailable;
    assert_eq!(e.message(), "no usable DNS resolver could be built");
}
