use dns_enum::ip::{is_ip_bytes, is_ipv4_bytes, is_ipv6_bytes, split_bytes};

fn b(s: &str) -> Vec<u8> {
    s.as_bytes().to_vec()
}

#[test]
fn split_examples() {
    assert_eq!(split_bytes(&b("a.b.c"), b'.'), vec![b("a"), b("b"), b("c")]);
    assert_eq!(split_bytes(&b(".."), b'.'), vec![b(""), b(""), b("")]);
    assert_eq!(split_bytes(&b("abc"), b'.'), vec![b("abc")]);
    assert_eq!(split_bytes(&b(""), b'.'), vec![b("")]);
    assert_eq!(split_bytes(&b("1::2"), b':'), vec![b("1"), b(""), b("2")]);
}

#[test]
fn valid_ipv4() {
    for s in ["0.0.0.0", "8.8.8.8", "127.0.0.1", "255.255.255.255", "192.168.0.1", "1.22.133.244"] {
        assert!(is_ipv4_bytes(&b(s)), "{s}");
        assert!(is_ip_bytes(&b(s)), "{s}");
    }
}

#[test]
fn invalid_ipv4() {
    for s in [
        "", "1.2.3", "1.2.3.4.5", "256.1.1.1", "1.2.3.999", "01.2.3.4", "00.1.1.1", "1.2.3.",
        ".1.2.3", "a.b.c.d", "1.2.3.4 ", "1,2,3,4", "-1.2.3.4",
    ] {
        assert!(!is_ipv4_bytes(&b(s)), "{s}");
    }
}

#[test]
fn valid_ipv6() {
    for s in [
        "::",
        "::1",
        "1::",
        "2001:db8::1",
        "1:2:3:4:5:6:7:8",
        "fe80::abcd:ef01",
        "1:2:3:4:5:6:7::",
        "::ffff:192.168.0.1",
        "1:2:3:4:5:6:1.2.3.4",
        "ABCD:EF01:2345:6789:abcd:ef01:2345:6789",
    ] {
        assert!(is_ipv6_bytes(&b(s)), "{s}");
        assert!(is_ip_bytes(&b(s)), "{s}");
    }
}

#[test]
fn invalid_ipv6() {
    for s in [
        "", ":", ":::", "1:::2", "1::2::3", "1:2:3:4:5:6:7", "1:2:3:4:5:6:7:8:9", "12345::",
        "g::1", "::1:2:3:4:5:6:7:8", "1:2:3:4:5:6:7:8::", "fe80::1%eth0", "1:2", ":1:2:3:4:5:6:7",
        "1:2:3:4:5:6:7:", "1.2.3.4", "1:2:3:1.2.3.4:5",
    ] {
        assert!(!is_ipv6_bytes(&b(s)), "{s}");
    }
}
