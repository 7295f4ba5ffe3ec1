use dns_enum::results::{collect_results, lex_le_bytes, process_candidate, sort_results, SubdomainResult};
use dns_enum::text::{filter_wordlist, make_fqdn, trim_trailing_dots};

fn b(s: &str) -> Vec<u8> {
    s.as_bytes().to_vec()
}

#[test]
fn scenario_example_com() {
    let words = vec![b("www"), b("mail"), b("ftp"), b("doesnotexist123")];
    let domain = b("example.com");
    let outcomes = vec![
        Some(vec![b("93.184.216.34")]),
        Some(vec![b("93.184.216.35")]),
        None,
        None,
    ];
    let r = collect_results(&words, &domain, outcomes);
    assert_eq!(r.len(), 2);
    assert_eq!(r[0].hostname, b("mail.example.com"));
    assert_eq!(r[0].ips, vec![b("93.184.216.35")]);
    assert_eq!(r[1].hostname, b("www.example.com"));
    assert_eq!(r[1].ips, vec![b("93.184.216.34")]);
}

#[test]
fn stub_subset_resolves_sorted() {
    let words = vec![b("zz"), b("aa"), b("mm"), b("bb")];
    let domain = b("test.org");
    let outcomes = vec![
        Some(vec![b("1.1.1.1")]),
        None,
        Some(vec![b("2.2.2.2")]),
        Some(vec![b("3.3.3.3")]),
    ];
    let r = collect_results(&words, &domain, outcomes);
    let hosts: Vec<Vec<u8>> = r.iter().map(|x| x.hostname.clone()).collect();
    assert_eq!(hosts, vec![b("bb.test.org"), b("mm.test.org"), b("zz.test.org")]);
}

#[test]
fn nothing_resolves_empty_result() {
    let words = vec![b("a"), b("b")];
    let r = collect_results(&words, &b("x.io"), vec![None, None]);
    assert_eq!(r.len(), 0);
}

#[test]
fn repeat_runs_identical() {
    let words = vec![b("c"), b("a"), b("b")];
    let domain = b("x.io");
    let mk = || vec![Some(vec![b("9.9.9.9")]), Some(vec![b("8.8.8.8")]), None];
    let r1 = collect_results(&words, &domain, mk());
    let r2 = collect_results(&words, &domain, mk());
    assert_eq!(r1.len(), r2.len());
    for (x, y) in r1.iter().zip(r2.iter()) {
        assert_eq!(x.hostname, y.hostname);
        assert_eq!(x.ips, y.ips);
    }
}

#[test]
fn candidate_kept_only_when_live() {
    assert!(process_candidate(b("a.b"), Some(vec![])).is_none());
    assert!(process_candidate(b("a.b"), None).is_none());
    let sr = process_candidate(b("a.b"), Some(vec![b("1.2.3.4"), b("::1")])).unwrap();
    assert_eq!(sr.hostname, b("a.b"));
    assert_eq!(sr.ips, vec![b("1.2.3.4"), b("::1")]);
}

#[test]
fn sort_orders_by_hostname_and_keeps_all() {
    let v = vec![
        SubdomainResult { hostname: b("mail.e.com"), ips: vec![b("2.2.2.2")] },
        SubdomainResult { hostname: b("api.e.com"), ips: vec![b("3.3.3.3")] },
        SubdomainResult { hostname: b("www.e.com"), ips: vec![b("1.1.1.1")] },
    ];
    let r = sort_results(v);
    assert_eq!(r.len(), 3);
    assert_eq!(r[0].hostname, b("api.e.com"));
    assert_eq!(r[1].hostname, b("mail.e.com"));
    assert_eq!(r[2].hostname, b("www.e.com"));
    assert_eq!(r[1].ips, vec![b("2.2.2.2")]);
}

#[test]
fn sort_is_stable_for_equal_hostnames() {
    let v = vec![
        SubdomainResult { hostname: b("a.e.com"), ips: vec![b("1.1.1.1")] },
        SubdomainResult { hostname: b("a.e.com"), ips: vec![b("2.2.2.2")] },
    ];
    let r = sort_results(v);
    assert_eq!(r[0].ips, vec![b("1.1.1.1")]);
    assert_eq!(r[1].ips, vec![b("2.2.2.2")]);
}

#[test]
fn lex_order_examples() {
    assert!(lex_le_bytes(&b("abc"), &b("abd")));
    assert!(!lex_le_bytes(&b("abd"), &b("abc")));
    assert!(lex_le_bytes(&b("ab"), &b("abc")));
    assert!(!lex_le_bytes(&b("abc"), &b("ab")));
    assert!(lex_le_bytes(&b(""), &b("a")));
    assert!(lex_le_bytes(&b("same"), &b("same")));
}

#[test]
fn fqdn_built_with_dot() {
    assert_eq!(make_fqdn(&b("www"), &b("example.com")), b("www.example.com"));
    assert_eq!(make_fqdn(&b(""), &b("e.com")), b(".e.com"));
}

#[test]
fn trailing_dots_trimmed() {
    assert_eq!(trim_trailing_dots(&b("host.example.com.")), b("host.example.com"));
    assert_eq!(trim_trailing_dots(&b("host.example.com...")), b("host.example.com"));
    assert_eq!(trim_trailing_dots(&b("plain")), b("plain"));
    assert_eq!(trim_trailing_dots(&b("...")), b(""));
    assert_eq!(trim_trailing_dots(&b("")), b(""));
}

#[test]
fn wordlist_filtering() {
    let lines = vec![b("www"), b(""), b("# comment"), b("mail"), b("#"), b("ftp")];
    let kept = filter_wordlist(lines);
    assert_eq!(kept, vec![b("www"), b("mail"), b("ftp")]);
}
