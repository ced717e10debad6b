use dn42_roa_generator::model::dns::{DNSRecordData, FQDNName};
use dn42_roa_generator::model::net::{IpAddr, Ipv4Addr, Ipv6Addr};
use dn42_roa_generator::model::record::Prefix;
use dn42_roa_generator::parser::dns::{
    generate_reverse_records, ExtractedNameServerInfo, ReverseRecordCounter,
};

#[test]
fn test_ipv4_aligned_generation() {
    // Case: 192.0.2.0/24 (Standard Class C)
    let prefix = Prefix::new(IpAddr::V4(Ipv4Addr::new(192, 0, 2, 0)), 24).unwrap();

    let ns_info = vec![
        ExtractedNameServerInfo {
            name_server: FQDNName::new("ns1.example.com.").unwrap(),
            name_server_ip: Some(IpAddr::V4(Ipv4Addr::new(10, 0, 0, 1))),
        }
    ];

    let mut counter = ReverseRecordCounter::default();
    let records = generate_reverse_records(&prefix, &ns_info, &mut counter);

    // Expectation:
    // 1. Zone name: 2.0.192.in-addr.arpa
    // 2. Records: 1 NS record, 1 A record (glue)

    assert_eq!(counter.ipv4_align, 1);
    assert_eq!(counter.ipv4_non_align, 0);
    assert_eq!(records.len(), 2);

    // Verify NS Record
    let ns_record = &records[0];
    assert_eq!(ns_record.name.as_str(), "2.0.192.in-addr.arpa");
    if let DNSRecordData::NS(target) = &ns_record.data {
        assert_eq!(target, "ns1.example.com.");
    } else {
        panic!("Expected NS record");
    }

    // Verify Glue Record
    let glue_record = &records[1];
    assert_eq!(glue_record.name.as_str(), "2.0.192.in-addr.arpa");
    if let DNSRecordData::A(ip) = &glue_record.data {
        assert_eq!(*ip, Ipv4Addr::new(10, 0, 0, 1));
    } else {
        panic!("Expected A record");
    }
}

#[test]
fn test_ipv6_aligned_generation() {
    // Case: 2001:db8::/32
    // Hex: 2001 0db8 ...
    // Nibbles: 2.0.0.1.0.d.b.8
    // Reversed: 8.b.d.0.1.0.0.2
    let prefix = Prefix::new(IpAddr::V6(Ipv6Addr::new(0x2001, 0xdb8, 0, 0, 0, 0, 0, 0)), 32).unwrap();

    let ns_info = vec![
        ExtractedNameServerInfo {
            name_server: FQDNName::new("ns1.example.com.").unwrap(),
            name_server_ip: None,
        }
    ];

    let mut counter = ReverseRecordCounter::default();
    let records = generate_reverse_records(&prefix, &ns_info, &mut counter);

    assert_eq!(counter.ipv6_align, 1);
    assert_eq!(records.len(), 1); // Only NS, no glue

    let record = &records[0];
    assert_eq!(record.name.as_str(), "8.b.d.0.1.0.0.2.ip6.arpa");
}

#[test]
fn test_ipv4_non_aligned_rfc2317() {
    // Case: 192.0.2.0/25 (Classless)
    // This splits the /24 into two /25s. We are generating for the lower half.
    // Base: 2.0.192.in-addr.arpa
    // Range: 0-127

    let prefix = Prefix::new(IpAddr::V4(Ipv4Addr::new(192, 0, 2, 0)), 25).unwrap();
    let ns_info = vec![
        ExtractedNameServerInfo {
            name_server: FQDNName::new("ns.child.com.").unwrap(),
            name_server_ip: None,
        }
    ];

    let mut counter = ReverseRecordCounter::default();
    let records = generate_reverse_records(&prefix, &ns_info, &mut counter);

    assert_eq!(counter.ipv4_non_align, 1);

    // /25 contains 128 hosts.
    // For each host, we expect 1 CNAME record
    // For the mapped zone, we expect 1 NS record.
    // Total = 128 CNAME + 1 NS = 129 records
    assert_eq!(records.len(), 129);

    // Check the first host (IP: 192.0.2.0)
    // The Record Name (Reverse IP) should be: 0.2.0.192.in-addr.arpa
    let ptr_name_0 = "0.2.0.192.in-addr.arpa";

    // Find CNAME for host 0
    let cname_rec = records.iter().find(|r| r.name.as_str() == ptr_name_0 && matches!(r.data, DNSRecordData::CNAME(_)));
    assert!(cname_rec.is_some(), "CNAME record for host 0 missing");

    if let Some(rec) = cname_rec {
        if let DNSRecordData::CNAME(target) = &rec.data {
            assert_eq!(target, "0.0/25.2.0.192.in-addr.arpa", "RFC2317 CNAME target format is incorrect");
        }
    }
}

#[test]
fn test_ipv4_aligned_prefix_8() {
    // Test /8 network: 10.0.0.0/8 -> 10.in-addr.arpa
    let prefix = Prefix::new(IpAddr::V4(Ipv4Addr::new(10, 0, 0, 0)), 8).unwrap();
    let ns_info = vec![
        ExtractedNameServerInfo {
            name_server: FQDNName::new("ns1.example.com.").unwrap(),
            name_server_ip: None,
        }
    ];

    let mut counter = ReverseRecordCounter::default();
    let records = generate_reverse_records(&prefix, &ns_info, &mut counter);

    assert_eq!(counter.ipv4_align, 1);
    assert_eq!(records.len(), 1); // Only NS record
    assert_eq!(records[0].name.as_str(), "10.in-addr.arpa");
}

#[test]
fn test_ipv4_aligned_prefix_16() {
    // Test /16 network: 172.16.0.0/16 -> 16.172.in-addr.arpa
    let prefix = Prefix::new(IpAddr::V4(Ipv4Addr::new(172, 16, 0, 0)), 16).unwrap();
    let ns_info = vec![
        ExtractedNameServerInfo {
            name_server: FQDNName::new("ns1.example.com.").unwrap(),
            name_server_ip: Some(IpAddr::V4(Ipv4Addr::new(172, 16, 0, 1))),
        }
    ];

    let mut counter = ReverseRecordCounter::default();
    let records = generate_reverse_records(&prefix, &ns_info, &mut counter);

    assert_eq!(counter.ipv4_align, 1);
    assert_eq!(records.len(), 2); // NS + A glue
    assert_eq!(records[0].name.as_str(), "16.172.in-addr.arpa");
}

#[test]
fn test_ipv4_aligned_prefix_32() {
    // Edge case: /32 single host - should still work as aligned
    let prefix = Prefix::new(IpAddr::V4(Ipv4Addr::new(192, 0, 2, 1)), 32).unwrap();
    let ns_info = vec![
        ExtractedNameServerInfo {
            name_server: FQDNName::new("ns1.example.com.").unwrap(),
            name_server_ip: None,
        }
    ];

    let mut counter = ReverseRecordCounter::default();
    let records = generate_reverse_records(&prefix, &ns_info, &mut counter);

    assert_eq!(counter.ipv4_align, 1);
    assert_eq!(records[0].name.as_str(), "1.2.0.192.in-addr.arpa");
}

#[test]
fn test_ipv4_non_aligned_upper_half() {
    // Critical test: Upper half of /24 split
    // 192.0.2.128/25 should generate CNAMEs for 128-255, NOT 0-127
    let prefix = Prefix::new(IpAddr::V4(Ipv4Addr::new(192, 0, 2, 128)), 25).unwrap();
    let ns_info = vec![
        ExtractedNameServerInfo {
            name_server: FQDNName::new("ns.example.com.").unwrap(),
            name_server_ip: None,
        }
    ];

    let mut counter = ReverseRecordCounter::default();
    let records = generate_reverse_records(&prefix, &ns_info, &mut counter);

    assert_eq!(counter.ipv4_non_align, 1);
    assert_eq!(records.len(), 129); // 128 CNAMEs + 1 NS

    // Check first host should be 128, not 0
    let first_cname = records.iter()
        .find(|r| r.name.as_str() == "128.2.0.192.in-addr.arpa")
        .expect("CNAME for 192.0.2.128 (first IP in range) should exist");

    if let DNSRecordData::CNAME(target) = &first_cname.data {
        // Bug check: target should reference the network base (128), not relative offset
        assert_eq!(target, "128.128/25.2.0.192.in-addr.arpa",
                   "CNAME target should use network base address in CIDR part");
    } else {
        panic!("Expected CNAME record");
    }

    // Check last host should be 255
    let last_cname = records.iter()
        .find(|r| r.name.as_str() == "255.2.0.192.in-addr.arpa")
        .expect("CNAME for 192.0.2.255 (last IP in range) should exist");
    assert!(matches!(last_cname.data, DNSRecordData::CNAME(_)));

    // Ensure no CNAME for IPs outside the range (0-127)
    let invalid_cname = records.iter()
        .find(|r| r.name.as_str() == "0.2.0.192.in-addr.arpa" && matches!(r.data, DNSRecordData::CNAME(_)));
    assert!(invalid_cname.is_none(), "Should not generate CNAME for IP 192.0.2.0 which is outside 192.0.2.128/25");
}

#[test]
fn test_ipv4_non_aligned_prefix_26() {
    // Test /26: 64 addresses
    // 192.0.2.64/26 covers 192.0.2.64 - 192.0.2.127
    let prefix = Prefix::new(IpAddr::V4(Ipv4Addr::new(192, 0, 2, 64)), 26).unwrap();
    let ns_info = vec![
        ExtractedNameServerInfo {
            name_server: FQDNName::new("ns.example.com.").unwrap(),
            name_server_ip: None,
        }
    ];

    let mut counter = ReverseRecordCounter::default();
    let records = generate_reverse_records(&prefix, &ns_info, &mut counter);

    assert_eq!(counter.ipv4_non_align, 1);
    assert_eq!(records.len(), 65); // 64 CNAMEs + 1 NS

    // Verify first IP in range
    let first_cname = records.iter()
        .find(|r| r.name.as_str() == "64.2.0.192.in-addr.arpa");
    assert!(first_cname.is_some(), "Should have CNAME for first IP (64)");

    // Verify last IP in range
    let last_cname = records.iter()
        .find(|r| r.name.as_str() == "127.2.0.192.in-addr.arpa");
    assert!(last_cname.is_some(), "Should have CNAME for last IP (127)");

    // Verify NS record zone name
    let ns_record = records.iter()
        .find(|r| matches!(r.data, DNSRecordData::NS(_)))
        .expect("Should have NS record");
    assert_eq!(ns_record.name.as_str(), "64/26.2.0.192.in-addr.arpa");
}

#[test]
fn test_ipv4_non_aligned_prefix_27() {
    // Test /27: 32 addresses
    let prefix = Prefix::new(IpAddr::V4(Ipv4Addr::new(192, 0, 2, 96)), 27).unwrap();
    let ns_info = vec![
        ExtractedNameServerInfo {
            name_server: FQDNName::new("ns.example.com.").unwrap(),
            name_server_ip: None,
        }
    ];

    let mut counter = ReverseRecordCounter::default();
    let records = generate_reverse_records(&prefix, &ns_info, &mut counter);

    assert_eq!(counter.ipv4_non_align, 1);
    assert_eq!(records.len(), 33); // 32 CNAMEs + 1 NS
}

#[test]
fn test_ipv4_non_aligned_prefix_28() {
    // Test /28: 16 addresses
    let prefix = Prefix::new(IpAddr::V4(Ipv4Addr::new(192, 0, 2, 16)), 28).unwrap();
    let ns_info = vec![
        ExtractedNameServerInfo {
            name_server: FQDNName::new("ns.example.com.").unwrap(),
            name_server_ip: None,
        }
    ];

    let mut counter = ReverseRecordCounter::default();
    let records = generate_reverse_records(&prefix, &ns_info, &mut counter);

    assert_eq!(counter.ipv4_non_align, 1);
    assert_eq!(records.len(), 17); // 16 CNAMEs + 1 NS
}

#[test]
fn test_ipv4_non_aligned_prefix_29() {
    // Test /29: 8 addresses (common for small allocations)
    let prefix = Prefix::new(IpAddr::V4(Ipv4Addr::new(192, 0, 2, 8)), 29).unwrap();
    let ns_info = vec![
        ExtractedNameServerInfo {
            name_server: FQDNName::new("ns.example.com.").unwrap(),
            name_server_ip: None,
        }
    ];

    let mut counter = ReverseRecordCounter::default();
    let records = generate_reverse_records(&prefix, &ns_info, &mut counter);

    assert_eq!(counter.ipv4_non_align, 1);
    assert_eq!(records.len(), 9); // 8 CNAMEs + 1 NS
}

#[test]
fn test_ipv4_non_aligned_prefix_30() {
    // Test /30: 4 addresses (common for point-to-point links)
    let prefix = Prefix::new(IpAddr::V4(Ipv4Addr::new(192, 0, 2, 4)), 30).unwrap();
    let ns_info = vec![
        ExtractedNameServerInfo {
            name_server: FQDNName::new("ns.example.com.").unwrap(),
            name_server_ip: None,
        }
    ];

    let mut counter = ReverseRecordCounter::default();
    let records = generate_reverse_records(&prefix, &ns_info, &mut counter);

    assert_eq!(counter.ipv4_non_align, 1);
    assert_eq!(records.len(), 5); // 4 CNAMEs + 1 NS
}

#[test]
fn test_ipv4_non_aligned_prefix_31() {
    // Test /31: 2 addresses (RFC 3021 point-to-point)
    let prefix = Prefix::new(IpAddr::V4(Ipv4Addr::new(192, 0, 2, 2)), 31).unwrap();
    let ns_info = vec![
        ExtractedNameServerInfo {
            name_server: FQDNName::new("ns.example.com.").unwrap(),
            name_server_ip: None,
        }
    ];

    let mut counter = ReverseRecordCounter::default();
    let records = generate_reverse_records(&prefix, &ns_info, &mut counter);

    assert_eq!(counter.ipv4_non_align, 1);
    assert_eq!(records.len(), 3); // 2 CNAMEs + 1 NS
}

#[test]
fn test_ipv4_non_aligned_prefix_17() {
    // Test /17: larger non-octet-aligned network
    // 172.16.0.0/17 covers 172.16.0.0 - 172.16.127.255
    let prefix = Prefix::new(IpAddr::V4(Ipv4Addr::new(172, 16, 0, 0)), 17).unwrap();
    let ns_info = vec![
        ExtractedNameServerInfo {
            name_server: FQDNName::new("ns.example.com.").unwrap(),
            name_server_ip: None,
        }
    ];

    let mut counter = ReverseRecordCounter::default();
    let records = generate_reverse_records(&prefix, &ns_info, &mut counter);

    assert_eq!(counter.ipv4_non_align, 1);
    // For /17, we have 16 full octets (2), remaining 1 bit
    // So we generate 128 delegations (0-127 for the third octet)
    assert_eq!(records.len(), 129); // 128 CNAMEs + 1 NS
}

#[test]
fn test_multiple_nameservers_with_mixed_glue() {
    // Test with multiple nameservers, some with glue, some without
    let prefix = Prefix::new(IpAddr::V4(Ipv4Addr::new(192, 0, 2, 0)), 24).unwrap();
    let ns_info = vec![
        ExtractedNameServerInfo {
            name_server: FQDNName::new("ns1.example.com.").unwrap(),
            name_server_ip: Some(IpAddr::V4(Ipv4Addr::new(192, 0, 2, 1))),
        },
        ExtractedNameServerInfo {
            name_server: FQDNName::new("ns2.example.com.").unwrap(),
            name_server_ip: None,
        },
        ExtractedNameServerInfo {
            name_server: FQDNName::new("ns3.example.com.").unwrap(),
            name_server_ip: Some(IpAddr::V6(Ipv6Addr::new(0x2001, 0xdb8, 0, 0, 0, 0, 0, 1))),
        },
    ];

    let mut counter = ReverseRecordCounter::default();
    let records = generate_reverse_records(&prefix, &ns_info, &mut counter);

    assert_eq!(counter.ipv4_align, 1);
    // 3 NS records + 1 A glue + 1 AAAA glue = 5 records
    assert_eq!(records.len(), 5);

    // Count record types
    let ns_count = records.iter().filter(|r| matches!(r.data, DNSRecordData::NS(_))).count();
    let a_count = records.iter().filter(|r| matches!(r.data, DNSRecordData::A(_))).count();
    let aaaa_count = records.iter().filter(|r| matches!(r.data, DNSRecordData::AAAA(_))).count();

    assert_eq!(ns_count, 3, "Should have 3 NS records");
    assert_eq!(a_count, 1, "Should have 1 A glue record");
    assert_eq!(aaaa_count, 1, "Should have 1 AAAA glue record");
}

#[test]
fn test_empty_nameserver_list() {
    // Edge case: no nameservers provided
    let prefix = Prefix::new(IpAddr::V4(Ipv4Addr::new(192, 0, 2, 0)), 24).unwrap();
    let ns_info = vec![];

    let mut counter = ReverseRecordCounter::default();
    let records = generate_reverse_records(&prefix, &ns_info, &mut counter);

    assert_eq!(counter.ipv4_align, 1);
    assert_eq!(records.len(), 0, "Should generate no records with empty nameserver list");
}

#[test]
fn test_ipv6_aligned_prefix_48() {
    // Test /48 - common site prefix
    // 2001:db8:1234::/48
    let prefix = Prefix::new(IpAddr::V6(Ipv6Addr::new(0x2001, 0xdb8, 0x1234, 0, 0, 0, 0, 0)), 48).unwrap();
    let ns_info = vec![
        ExtractedNameServerInfo {
            name_server: FQDNName::new("ns1.example.com.").unwrap(),
            name_server_ip: None,
        }
    ];

    let mut counter = ReverseRecordCounter::default();
    let records = generate_reverse_records(&prefix, &ns_info, &mut counter);

    assert_eq!(counter.ipv6_align, 1);
    assert_eq!(records.len(), 1);
    // 2001:0db8:1234 -> nibbles: 2.0.0.1.0.d.b.8.1.2.3.4
    // Reversed: 4.3.2.1.8.b.d.0.1.0.0.2
    assert_eq!(records[0].name.as_str(), "4.3.2.1.8.b.d.0.1.0.0.2.ip6.arpa");
}

#[test]
fn test_ipv6_aligned_prefix_64() {
    // Test /64 - common subnet prefix
    // 2001:db8:abcd:ef01::/64
    let prefix = Prefix::new(IpAddr::V6(Ipv6Addr::new(0x2001, 0xdb8, 0xabcd, 0xef01, 0, 0, 0, 0)), 64).unwrap();
    let ns_info = vec![
        ExtractedNameServerInfo {
            name_server: FQDNName::new("ns1.example.com.").unwrap(),
            name_server_ip: Some(IpAddr::V6(Ipv6Addr::new(0x2001, 0xdb8, 0xabcd, 0xef01, 0, 0, 0, 1))),
        }
    ];

    let mut counter = ReverseRecordCounter::default();
    let records = generate_reverse_records(&prefix, &ns_info, &mut counter);

    assert_eq!(counter.ipv6_align, 1);
    assert_eq!(records.len(), 2); // NS + AAAA glue
    // 16 nibbles for /64
    assert_eq!(records[0].name.as_str(), "1.0.f.e.d.c.b.a.8.b.d.0.1.0.0.2.ip6.arpa");
}

#[test]
fn test_ipv6_aligned_prefix_128() {
    // Edge case: /128 single address
    let prefix = Prefix::new(IpAddr::V6(Ipv6Addr::new(0x2001, 0xdb8, 0, 0, 0, 0, 0, 1)), 128).unwrap();
    let ns_info = vec![
        ExtractedNameServerInfo {
            name_server: FQDNName::new("ns1.example.com.").unwrap(),
            name_server_ip: None,
        }
    ];

    let mut counter = ReverseRecordCounter::default();
    let records = generate_reverse_records(&prefix, &ns_info, &mut counter);

    assert_eq!(counter.ipv6_align, 1);
    assert_eq!(records.len(), 1);
    // Full 32 nibbles
    assert_eq!(records[0].name.as_str(), "1.0.0.0.0.0.0.0.0.0.0.0.0.0.0.0.0.0.0.0.0.0.0.0.8.b.d.0.1.0.0.2.ip6.arpa");
}

#[test]
fn test_cname_target_format_consistency() {
    // Verify CNAME target format follows RFC 2317 conventions
    let prefix = Prefix::new(IpAddr::V4(Ipv4Addr::new(192, 0, 2, 192)), 26).unwrap();
    let ns_info = vec![
        ExtractedNameServerInfo {
            name_server: FQDNName::new("ns.example.com.").unwrap(),
            name_server_ip: None,
        }
    ];

    let mut counter = ReverseRecordCounter::default();
    let records = generate_reverse_records(&prefix, &ns_info, &mut counter);

    // Find any CNAME record
    let cname_rec = records.iter()
        .find(|r| matches!(r.data, DNSRecordData::CNAME(_)))
        .expect("Should have at least one CNAME");

    if let DNSRecordData::CNAME(target) = &cname_rec.data {
        // Target should contain the CIDR notation
        assert!(target.contains("/26"), "CNAME target should contain prefix length");
        assert!(target.contains("192/26"), "CNAME target should contain network base address");
        assert!(target.ends_with(".in-addr.arpa"), "CNAME target should end with .in-addr.arpa");
    }
}

#[test]
fn test_counter_increments() {
    // Verify counters are correctly incremented for different scenarios
    let mut counter = ReverseRecordCounter::default();

    // IPv4 aligned
    let prefix1 = Prefix::new(IpAddr::V4(Ipv4Addr::new(10, 0, 0, 0)), 8).unwrap();
    generate_reverse_records(&prefix1, &[], &mut counter);

    // IPv4 non-aligned
    let prefix2 = Prefix::new(IpAddr::V4(Ipv4Addr::new(192, 0, 2, 0)), 25).unwrap();
    generate_reverse_records(&prefix2, &[], &mut counter);

    // IPv6 aligned
    let prefix3 = Prefix::new(IpAddr::V6(Ipv6Addr::new(0x2001, 0xdb8, 0, 0, 0, 0, 0, 0)), 32).unwrap();
    generate_reverse_records(&prefix3, &[], &mut counter);

    // IPv6 non-aligned
    let prefix4 = Prefix::new(IpAddr::V6(Ipv6Addr::new(0x2001, 0xdb8, 0, 0, 0, 0, 0, 0)), 37).unwrap();
    generate_reverse_records(&prefix4, &[], &mut counter);

    assert_eq!(counter.ipv4_align, 1);
    assert_eq!(counter.ipv4_non_align, 1);
    assert_eq!(counter.ipv6_align, 1);
    assert_eq!(counter.ipv6_non_align, 1);
}

#[test]
fn test_ipv4_non_aligned_boundary_addresses() {
    // Test that first and last addresses in range have correct CNAMEs
    // Using 192.0.2.240/28 (range: 240-255)
    let prefix = Prefix::new(IpAddr::V4(Ipv4Addr::new(192, 0, 2, 240)), 28).unwrap();
    let ns_info = vec![
        ExtractedNameServerInfo {
            name_server: FQDNName::new("ns.example.com.").unwrap(),
            name_server_ip: None,
        }
    ];

    let mut counter = ReverseRecordCounter::default();
    let records = generate_reverse_records(&prefix, &ns_info, &mut counter);

    // Check first address (240)
    let first = records.iter()
        .find(|r| r.name.as_str() == "240.2.0.192.in-addr.arpa" && matches!(r.data, DNSRecordData::CNAME(_)))
        .expect("Should have CNAME for first IP in range (240)");

    if let DNSRecordData::CNAME(target) = &first.data {
        assert_eq!(target, "240.240/28.2.0.192.in-addr.arpa");
    }

    // Check last address (255)
    let last = records.iter()
        .find(|r| r.name.as_str() == "255.2.0.192.in-addr.arpa" && matches!(r.data, DNSRecordData::CNAME(_)))
        .expect("Should have CNAME for last IP in range (255)");

    if let DNSRecordData::CNAME(target) = &last.data {
        assert_eq!(target, "255.240/28.2.0.192.in-addr.arpa");
    }

    // Ensure no CNAME for address just before range (239)
    let before = records.iter()
        .find(|r| r.name.as_str() == "239.2.0.192.in-addr.arpa");
    assert!(before.is_none(), "Should not have CNAME for IP outside range");
}
