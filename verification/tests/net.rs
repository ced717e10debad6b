use dn42_roa_generator::model::net::{IpAddr, Ipv4Addr, Ipv6Addr};

#[test]
fn ipv4_parse_and_text() {
    let a = Ipv4Addr::parse("172.20.129.1").unwrap();
    assert_eq!(a, Ipv4Addr::new(172, 20, 129, 1));
    assert_eq!(a.octets(), [172, 20, 129, 1]);
    assert_eq!(a.to_text(), "172.20.129.1");
    assert_eq!(Ipv4Addr::new(0, 0, 0, 0).to_text(), "0.0.0.0");
    assert_eq!(Ipv4Addr::new(255, 255, 255, 255).to_text(), "255.255.255.255");
}

#[test]
fn ipv4_parse_rejects() {
    assert!(Ipv4Addr::parse("").is_none());
    assert!(Ipv4Addr::parse("1.2.3").is_none());
    assert!(Ipv4Addr::parse("1.2.3.4.5").is_none());
    assert!(Ipv4Addr::parse("1.2.3.256").is_none());
    assert!(Ipv4Addr::parse("1.2.3.04").is_none());
    assert!(Ipv4Addr::parse("1.2.3.+4").is_none());
    assert!(Ipv4Addr::parse("1.2..4").is_none());
    assert!(Ipv4Addr::parse("1.2.3.4 ").is_none());
    assert!(Ipv4Addr::parse("1.2.3.1000").is_none());
    assert!(Ipv4Addr::parse("a.b.c.d").is_none());
    assert!(Ipv4Addr::parse("1.2.3.0").is_some());
}

#[test]
fn ipv6_parse_full_and_compressed() {
    let full = Ipv6Addr::parse("2001:db8:0:0:0:0:0:1").unwrap();
    let short = Ipv6Addr::parse("2001:db8::1").unwrap();
    assert_eq!(full, short);
    assert_eq!(full, Ipv6Addr::new(0x2001, 0xdb8, 0, 0, 0, 0, 0, 1));
    assert_eq!(full.segments(), [0x2001, 0xdb8, 0, 0, 0, 0, 0, 1]);
    assert_eq!(Ipv6Addr::parse("::").unwrap(), Ipv6Addr::new(0, 0, 0, 0, 0, 0, 0, 0));
    assert_eq!(Ipv6Addr::parse("::1").unwrap(), Ipv6Addr::new(0, 0, 0, 0, 0, 0, 0, 1));
    assert_eq!(Ipv6Addr::parse("1::").unwrap(), Ipv6Addr::new(1, 0, 0, 0, 0, 0, 0, 0));
    assert_eq!(
        Ipv6Addr::parse("FD42:4242:2601:AC53::1").unwrap(),
        Ipv6Addr::new(0xfd42, 0x4242, 0x2601, 0xac53, 0, 0, 0, 1)
    );
    assert_eq!(
        Ipv6Addr::parse("1:2:3:4:5:6:7::").unwrap(),
        Ipv6Addr::new(1, 2, 3, 4, 5, 6, 7, 0)
    );
}

#[test]
fn ipv6_parse_with_dotted_quad() {
    assert_eq!(
        Ipv6Addr::parse("::ffff:192.0.2.1").unwrap(),
        Ipv6Addr::new(0, 0, 0, 0, 0, 0xffff, 0xc000, 0x0201)
    );
    assert_eq!(
        Ipv6Addr::parse("1:2:3:4:5:6:1.2.3.4").unwrap(),
        Ipv6Addr::new(1, 2, 3, 4, 5, 6, 0x0102, 0x0304)
    );
    assert!(Ipv6Addr::parse("1.2.3.4::").is_none());
    assert!(Ipv6Addr::parse("::1.2.3.4:5").is_none());
    assert!(Ipv6Addr::parse("1:2:3:4:5:6::1.2.3.4").is_none());
}

#[test]
fn ipv6_parse_rejects() {
    assert!(Ipv6Addr::parse("").is_none());
    assert!(Ipv6Addr::parse(":").is_none());
    assert!(Ipv6Addr::parse(":::").is_none());
    assert!(Ipv6Addr::parse("1::2::3").is_none());
    assert!(Ipv6Addr::parse("1:2:3:4:5:6:7").is_none());
    assert!(Ipv6Addr::parse("1:2:3:4:5:6:7:8:9").is_none());
    assert!(Ipv6Addr::parse("1:2:3:4:5:6:7::8").is_none());
    assert!(Ipv6Addr::parse("12345::").is_none());
    assert!(Ipv6Addr::parse("g::").is_none());
    assert!(Ipv6Addr::parse(":1:2:3:4:5:6:7:8").is_none());
    assert!(Ipv6Addr::parse("1:2:3:4:5:6:7:8:").is_none());
}

#[test]
fn ipv6_text_is_canonical() {
    assert_eq!(Ipv6Addr::new(0, 0, 0, 0, 0, 0, 0, 0).to_text(), "::");
    assert_eq!(Ipv6Addr::new(0, 0, 0, 0, 0, 0, 0, 1).to_text(), "::1");
    assert_eq!(Ipv6Addr::new(0x2001, 0xdb8, 0, 0, 0, 0, 0, 1).to_text(), "2001:db8::1");
    assert_eq!(Ipv6Addr::new(0x2001, 0xdb8, 0, 0, 0, 0, 0, 0).to_text(), "2001:db8::");
    // A single zero group is not shortened.
    assert_eq!(Ipv6Addr::new(1, 0, 2, 3, 4, 5, 6, 7).to_text(), "1:0:2:3:4:5:6:7");
    // Of two runs of the same length the first is shortened.
    assert_eq!(Ipv6Addr::new(1, 0, 0, 2, 0, 0, 3, 4).to_text(), "1::2:0:0:3:4");
    // The longer run is shortened, wherever it stands.
    assert_eq!(Ipv6Addr::new(1, 0, 0, 2, 0, 0, 0, 4).to_text(), "1:0:0:2::4");
    assert_eq!(
        Ipv6Addr::new(0xfd42, 0x4242, 0x2601, 0xac53, 0xa, 0xb0, 0xc00, 0xd000).to_text(),
        "fd42:4242:2601:ac53:a:b0:c00:d000"
    );
    assert_eq!(
        Ipv6Addr::new(0, 0, 0, 0, 0, 0xffff, 0xc000, 0x0201).to_text(),
        "::ffff:192.0.2.1"
    );
}

#[test]
fn ip_addr_takes_either_family() {
    assert_eq!(IpAddr::parse("10.0.0.1").unwrap(), IpAddr::V4(Ipv4Addr::new(10, 0, 0, 1)));
    assert_eq!(
        IpAddr::parse("fd42::1").unwrap(),
        IpAddr::V6(Ipv6Addr::new(0xfd42, 0, 0, 0, 0, 0, 0, 1))
    );
    assert!(IpAddr::parse("not an address").is_none());
    assert!(IpAddr::parse("10.0.0.1").unwrap().is_ipv4());
    assert!(!IpAddr::parse("::1").unwrap().is_ipv4());
    assert_eq!(IpAddr::parse("10.0.0.1").unwrap().to_text(), "10.0.0.1");
    assert_eq!(IpAddr::parse("0:0::1").unwrap().to_text(), "::1");
    assert_eq!(IpAddr::parse("10.0.0.1").unwrap().octets_vec(), vec![10, 0, 0, 1]);
}
