use dn42_roa_generator::clock::{current_serial, serial_from_elapsed, serial_from_unix_seconds};
use dn42_roa_generator::model::dns::{DNSClass, DNSRecord, DNSRecordData, DNSZone, FQDNName};
use dn42_roa_generator::model::net::{IpAddr, Ipv4Addr, Ipv6Addr};
use dn42_roa_generator::model::record::RecordFile;
use dn42_roa_generator::parser::dns::{
    extract_ip_from_registry_sync_domain, extract_ipv4_from_labels, extract_ipv6_from_labels,
    domain_fault_texts, forward_rejection_texts, forward_zones_at, generate_registry_sync_records,
    get_parsed_ns_records, is_registry_sync_domain, new_zone, registry_sync_fault_texts,
    ExtractedDomainInfo, ExtractedNameServerInfo,
};

fn file(content: &str) -> RecordFile {
    RecordFile::new("data/dns/object".to_string(), content)
}

fn record(name: &str, data: DNSRecordData) -> DNSRecord {
    DNSRecord { name: FQDNName::new(name).unwrap(), class: DNSClass::IN, ttl: 3600, data }
}

fn zone_of<'a>(zones: &'a [DNSZone], origin: &str) -> &'a DNSZone {
    zones.iter().find(|z| z.origin().as_str() == origin).unwrap()
}

#[test]
fn forward_zone_of_one_domain_with_glue() {
    let files = vec![file("domain: burble.dn42\nnserver: ns1.burble.dn42 172.20.129.1\n")];
    let zones = forward_zones_at(&files, "ns.primary.dn42.", "hostmaster.dn42.", 7);
    assert_eq!(zones.len(), 1);
    let zone = &zones[0];
    assert_eq!(zone.origin().as_str(), "dn42");
    assert_eq!(
        *zone.soa(),
        DNSRecordData::SOA {
            mname: "ns.primary.dn42.".to_string(),
            rname: "hostmaster.dn42.".to_string(),
            serial: 7,
            refresh: 3600,
            retry: 600,
            expire: 604800,
            minimum: 1440,
        }
    );
    assert_eq!(
        *zone.records(),
        vec![
            record("burble.dn42", DNSRecordData::NS("ns1.burble.dn42".to_string())),
            record("ns1.burble.dn42", DNSRecordData::A(Ipv4Addr::new(172, 20, 129, 1))),
        ]
    );
}

#[test]
fn forward_zones_are_made_per_last_label_in_order_of_first_use() {
    let files = vec![
        file("domain: a.dn42\nnserver: ns.a.dn42\n"),
        file("domain: example.neo\nnserver: ns.example.neo fd42::53\n"),
        file("domain: b.dn42\nnserver: ns.b.dn42\n"),
    ];
    let zones = forward_zones_at(&files, "p.", "r.", 1);
    assert_eq!(zones.len(), 2);
    assert_eq!(zones[0].origin().as_str(), "dn42");
    assert_eq!(zones[1].origin().as_str(), "neo");
    assert_eq!(
        *zones[0].records(),
        vec![
            record("a.dn42", DNSRecordData::NS("ns.a.dn42".to_string())),
            record("b.dn42", DNSRecordData::NS("ns.b.dn42".to_string())),
        ]
    );
    assert_eq!(
        *zones[1].records(),
        vec![
            record("example.neo", DNSRecordData::NS("ns.example.neo".to_string())),
            record(
                "ns.example.neo",
                DNSRecordData::AAAA(Ipv6Addr::new(0xfd42, 0, 0, 0, 0, 0, 0, 0x53))
            ),
        ]
    );
}

#[test]
fn forward_zone_leaves_out_glue_outside_the_zone_and_repeated_records() {
    let files = vec![
        file("domain: a.dn42\nnserver: ns.other.neo 10.0.0.1\nnserver: ns.a.dn42\n"),
        file("domain: a.dn42\nnserver: ns.a.dn42\n"),
    ];
    let zones = forward_zones_at(&files, "p.", "r.", 1);
    assert_eq!(zones.len(), 1);
    assert_eq!(
        *zones[0].records(),
        vec![
            record("a.dn42", DNSRecordData::NS("ns.other.neo".to_string())),
            record("a.dn42", DNSRecordData::NS("ns.a.dn42".to_string())),
        ]
    );
}

#[test]
fn forward_zone_skips_objects_that_cannot_be_read() {
    let files = vec![
        file("descr: no domain at all\n"),
        file("domain: a.dn42\ndomain: b.dn42\nnserver: ns.a.dn42\n"),
        file("domain: bad..name\nnserver: ns.a.dn42\n"),
        file("domain: c.dn42\nnserver: ns.c.dn42 not-an-address\n"),
        file("domain: d.dn42\nnserver:\n"),
        file("domain: e.dn42\nnserver: -bad-.dn42\n"),
        file("domain: ok.dn42\n"),
    ];
    let zones = forward_zones_at(&files, "p.", "r.", 1);
    assert_eq!(zones.len(), 1);
    assert_eq!(zones[0].origin().as_str(), "dn42");
    assert!(zones[0].records().is_empty());
}

#[test]
fn forward_zone_gets_the_registry_sync_address() {
    let files = vec![file(
        "domain: example.dn42\nnserver: 1.1.25.10.ipv4.registry-sync.dn42\n",
    )];
    let zones = forward_zones_at(&files, "p.", "r.", 1);
    let zone = zone_of(&zones, "dn42");
    assert_eq!(
        *zone.records(),
        vec![
            record(
                "example.dn42",
                DNSRecordData::NS("1.1.25.10.ipv4.registry-sync.dn42".to_string())
            ),
            record(
                "1.1.25.10.ipv4.registry-sync.dn42",
                DNSRecordData::A(Ipv4Addr::new(10, 25, 1, 1))
            ),
        ]
    );
}

#[test]
fn registry_sync_address_goes_to_the_dn42_zone_from_any_domain() {
    let files = vec![
        file("domain: example.neo\nnserver: 4.3.2.1.ipv4.registry-sync.dn42\n"),
        file("domain: other.dn42\nnserver: ns.other.dn42\n"),
    ];
    let zones = forward_zones_at(&files, "p.", "r.", 1);
    let dn42 = zone_of(&zones, "dn42");
    assert!(dn42.records().contains(&record(
        "4.3.2.1.ipv4.registry-sync.dn42",
        DNSRecordData::A(Ipv4Addr::new(1, 2, 3, 4))
    )));
    let neo = zone_of(&zones, "neo");
    assert_eq!(
        *neo.records(),
        vec![record(
            "example.neo",
            DNSRecordData::NS("4.3.2.1.ipv4.registry-sync.dn42".to_string())
        )]
    );
}

#[test]
fn registry_sync_records_without_a_dn42_zone_go_nowhere() {
    let files = vec![file("domain: example.neo\nnserver: 4.3.2.1.ipv4.registry-sync.dn42\n")];
    let zones = forward_zones_at(&files, "p.", "r.", 1);
    assert_eq!(zones.len(), 1);
    assert_eq!(zones[0].records().len(), 1);
    assert_eq!(generate_registry_sync_records(&files).len(), 1);
}

#[test]
fn ds_rdata_of_the_apex_is_dropped() {
    let files = vec![
        file("domain: dn42\nnserver: ns.dn42\nds-rdata: 1 8 2 AA\n"),
        file("domain: burble.dn42\nnserver: ns.burble.dn42\nds-rdata: 2 13 2 BB\nds-rdata: 3 13 4 CC\n"),
    ];
    let zones = forward_zones_at(&files, "p.", "r.", 1);
    assert_eq!(zones.len(), 1);
    assert_eq!(
        *zones[0].records(),
        vec![
            record("dn42", DNSRecordData::NS("ns.dn42".to_string())),
            record("burble.dn42", DNSRecordData::NS("ns.burble.dn42".to_string())),
            record("burble.dn42", DNSRecordData::DS("2 13 2 BB".to_string())),
            record("burble.dn42", DNSRecordData::DS("3 13 4 CC".to_string())),
        ]
    );
    for zone in &zones {
        for r in zone.records() {
            assert!(!(matches!(r.data, DNSRecordData::DS(_)) && r.name == *zone.origin()));
        }
    }
}

#[test]
fn registry_sync_recognizer() {
    let yes = FQDNName::new("1.1.25.10.ipv4.registry-sync.dn42").unwrap();
    assert!(is_registry_sync_domain(&yes));
    assert!(!is_registry_sync_domain(&FQDNName::new("registry-sync.dn42").unwrap()));
    assert!(!is_registry_sync_domain(&FQDNName::new("xregistry-sync.dn42").unwrap()));
    assert!(!is_registry_sync_domain(&FQDNName::new("a.registry-sync.dn42.").unwrap()));
    assert!(!is_registry_sync_domain(&FQDNName::new("ns1.burble.dn42").unwrap()));
    assert!(is_registry_sync_domain(&FQDNName::new("A.Registry-Sync.DN42").unwrap()));
}

#[test]
fn registry_sync_ipv4_address() {
    let name = FQDNName::new("1.1.25.10.ipv4.registry-sync.dn42").unwrap();
    assert_eq!(
        extract_ip_from_registry_sync_domain(&name).unwrap(),
        IpAddr::V4(Ipv4Addr::new(10, 25, 1, 1))
    );
    let bad_count = FQDNName::new("1.25.10.ipv4.registry-sync.dn42").unwrap();
    assert!(extract_ip_from_registry_sync_domain(&bad_count).is_err());
    let bad_octet = FQDNName::new("1.1.256.10.ipv4.registry-sync.dn42").unwrap();
    assert!(extract_ip_from_registry_sync_domain(&bad_octet).is_err());
    let bad_family = FQDNName::new("1.1.25.10.ipv5.registry-sync.dn42").unwrap();
    assert!(extract_ip_from_registry_sync_domain(&bad_family).is_err());
    let short = FQDNName::new("a.registry-sync.dn42").unwrap();
    assert!(extract_ip_from_registry_sync_domain(&short).is_err());
}

#[test]
fn registry_sync_ipv6_address() {
    let name = FQDNName::new(
        "1.0.1.0.0.0.0.0.0.0.0.0.0.0.0.0.0.0.0.0.a.b.f.f.a.b.f.f.0.0.d.f.ipv6.registry-sync.dn42",
    )
    .unwrap();
    assert_eq!(
        extract_ip_from_registry_sync_domain(&name).unwrap(),
        IpAddr::V6(Ipv6Addr::new(0xfd00, 0xffba, 0xffba, 0, 0, 0, 0, 0x0101))
    );
    let wide = FQDNName::new(
        "1.0.1.0.0.0.0.0.0.0.0.0.0.0.0.0.0.0.0.0.a.b.f.f.a.b.f.f.0.0.d.1f.ipv6.registry-sync.dn42",
    )
    .unwrap();
    assert!(extract_ip_from_registry_sync_domain(&wide).is_err());
}

#[test]
fn registry_sync_labels_alone() {
    let labels = |text: &str| -> Vec<Vec<char>> {
        text.split('.').map(|l| l.chars().collect()).collect()
    };
    assert_eq!(
        extract_ipv4_from_labels(&labels("4.3.2.1.ipv4.registry-sync.dn42")).unwrap(),
        IpAddr::V4(Ipv4Addr::new(1, 2, 3, 4))
    );
    assert!(extract_ipv4_from_labels(&labels("4.3.2.1.ipv4.registry-sync")).is_err());
    assert!(extract_ipv4_from_labels(&labels("4.3.2.x.ipv4.registry-sync.dn42")).is_err());
    assert!(extract_ipv6_from_labels(&labels("4.3.2.1.ipv6.registry-sync.dn42")).is_err());
}

#[test]
fn name_server_line() {
    let n = ExtractedNameServerInfo::parse("  NS1.Burble.dn42 \t 172.20.129.1  extra words", "data/dns/x").unwrap();
    assert_eq!(n.name_server.as_str(), "ns1.burble.dn42");
    assert_eq!(n.name_server_ip, Some(IpAddr::V4(Ipv4Addr::new(172, 20, 129, 1))));
    let m = ExtractedNameServerInfo::parse("ns2.burble.dn42", "data/dns/x").unwrap();
    assert_eq!(m.name_server_ip, None);
    assert!(ExtractedNameServerInfo::parse("", "data/dns/x").is_err());
    assert!(ExtractedNameServerInfo::parse("   ", "data/dns/x").is_err());
    assert!(ExtractedNameServerInfo::parse("ns1.burble.dn42 1.2.3", "data/dns/x").is_err());
    assert!(ExtractedNameServerInfo::parse("bad..name 1.2.3.4", "data/dns/x").is_err());
}

#[test]
fn domain_info_of_an_object() {
    let f = file("domain: Burble.DN42\nnserver: ns1.burble.dn42 fd42::1\nds-rdata: 1 2 3 ab\n");
    let info = ExtractedDomainInfo::try_from(&f).unwrap();
    assert_eq!(info.domain.as_str(), "burble.dn42");
    assert_eq!(info.tld, "dn42");
    assert_eq!(info.name_servers.len(), 1);
    assert_eq!(info.ds_rdata, vec!["1 2 3 ab".to_string()]);
    assert!(ExtractedDomainInfo::try_from(&file("nserver: ns1.burble.dn42\n")).is_err());
}

#[test]
fn serial_is_the_time_modulo_two_to_the_32() {
    assert_eq!(serial_from_unix_seconds(0), 0);
    assert_eq!(serial_from_unix_seconds(1_700_000_000), 1_700_000_000);
    assert_eq!(serial_from_unix_seconds(4_294_967_296), 0);
    assert_eq!(serial_from_unix_seconds(4_294_967_296 + 5), 5);
    assert_eq!(serial_from_unix_seconds(u64::MAX), u32::MAX);
}

#[test]
fn serial_of_a_clock_before_1970_is_zero() {
    assert_eq!(serial_from_elapsed(None), 0);
    assert_eq!(serial_from_elapsed(Some(0)), 0);
    assert_eq!(serial_from_elapsed(Some(1_700_000_000)), 1_700_000_000);
    assert_eq!(serial_from_elapsed(Some(4_294_967_296 + 9)), 9);
}

#[test]
fn forward_zones_made_now_differ_in_the_serial_number_alone() {
    let files = vec![
        file("domain: burble.dn42\nnserver: ns1.burble.dn42 172.20.129.1\n"),
        file("domain: example.neo\nnserver: 4.3.2.1.ipv4.registry-sync.dn42\n"),
    ];
    let before = current_serial();
    let now = get_parsed_ns_records(&files, "ns.primary.dn42.", "hostmaster.dn42.");
    let after = current_serial();
    let fixed = forward_zones_at(&files, "ns.primary.dn42.", "hostmaster.dn42.", 7);
    assert_eq!(now.len(), fixed.len());
    for (a, b) in now.iter().zip(fixed.iter()) {
        assert_eq!(a.origin(), b.origin());
        assert_eq!(a.records(), b.records());
        match (a.soa(), b.soa()) {
            (
                DNSRecordData::SOA { mname, rname, serial, refresh, retry, expire, minimum },
                DNSRecordData::SOA {
                    mname: m2,
                    rname: r2,
                    serial: _,
                    refresh: f2,
                    retry: t2,
                    expire: e2,
                    minimum: n2,
                },
            ) => {
                assert_eq!((mname, rname, refresh, retry, expire, minimum), (m2, r2, f2, t2, e2, n2));
                if before <= after {
                    assert!(before <= *serial && *serial <= after);
                }
            }
            _ => panic!("a zone without a start of authority"),
        }
    }
}

#[test]
fn new_zone_has_the_usual_timers() {
    let zone = new_zone(FQDNName::new("dn42").unwrap(), "p.".to_string(), "r.".to_string(), 9);
    assert_eq!(zone.origin().as_str(), "dn42");
    assert!(zone.records().is_empty());
    assert_eq!(
        *zone.soa(),
        DNSRecordData::SOA {
            mname: "p.".to_string(),
            rname: "r.".to_string(),
            serial: 9,
            refresh: 3600,
            retry: 600,
            expire: 604800,
            minimum: 1440,
        }
    );
}

#[test]
fn zone_refuses_a_record_outside_its_origin() {
    let mut zone = DNSZone::default();
    assert_eq!(zone.origin().as_str(), "dn42");
    let inside = record("a.dn42", DNSRecordData::NS("ns.a.dn42".to_string()));
    let apex = record("dn42", DNSRecordData::NS("ns.dn42".to_string()));
    let outside = record("a.neo", DNSRecordData::NS("ns.a.neo".to_string()));
    assert_eq!(zone.add_record(inside.clone()), Ok(()));
    assert_eq!(zone.add_record(apex.clone()), Ok(()));
    assert_eq!(zone.add_record(inside.clone()), Ok(()));
    assert_eq!(
        zone.add_record(outside),
        Err("Record name 'a.neo' is not within the zone origin 'dn42'".to_string())
    );
    assert_eq!(*zone.records(), vec![inside.clone(), apex]);
    assert!(zone.contains(&inside));
    assert_eq!(inside.get_type_code(), 2);
    assert_eq!(inside.data.type_str(), "NS");
}

#[test]
fn record_type_names_and_codes() {
    let cases: Vec<(DNSRecordData, &str, u16)> = vec![
        (DNSRecordData::A(Ipv4Addr::new(1, 2, 3, 4)), "A", 1),
        (DNSRecordData::NS("n.".to_string()), "NS", 2),
        (DNSRecordData::CNAME("c.".to_string()), "CNAME", 5),
        (DNSRecordData::PTR("p.".to_string()), "PTR", 12),
        (DNSRecordData::MX { preference: 10, exchange: "m.".to_string() }, "MX", 15),
        (DNSRecordData::TXT(vec!["t".to_string()]), "TXT", 16),
        (DNSRecordData::AAAA(Ipv6Addr::new(0, 0, 0, 0, 0, 0, 0, 1)), "AAAA", 28),
        (
            DNSRecordData::SRV { priority: 1, weight: 2, port: 3, target: "s.".to_string() },
            "SRV",
            33,
        ),
        (DNSRecordData::DS("1 2 3 ab".to_string()), "DS", 43),
    ];
    for (data, name, code) in cases {
        assert_eq!(data.type_str(), name);
        assert!(data.equals(&data.clone()));
        assert!(!data.is_soa());
        assert_eq!(record("x.dn42", data).get_type_code(), code);
    }
}

#[test]
fn name_server_line_says_what_is_wrong() {
    let fault = |line: &str| ExtractedNameServerInfo::parse(line, "data/dns/x").unwrap_err();
    assert_eq!(fault(""), "Invalid nameserver format in record: \"data/dns/x\" : ");
    assert_eq!(fault(" \t"), "Invalid nameserver format in record: \"data/dns/x\" :  \t");
    assert_eq!(
        fault("bad..name 1.2.3.4"),
        "Invalid nameserver FQDN in record \"data/dns/x\" : Domain label cannot be empty (e.g., '..')"
    );
    assert_eq!(
        fault("-ns.dn42"),
        "Invalid nameserver FQDN in record \"data/dns/x\" : Label '-ns' must start with a letter"
    );
    assert_eq!(
        fault("ns1.burble.dn42 1.2.3"),
        "Invalid nameserver IP in record \"data/dns/x\" : invalid IP address syntax"
    );
}

#[test]
fn objects_that_are_left_out_say_what_is_wrong() {
    let files = vec![
        file("descr: no domain at all\n"),
        file("domain: ok.dn42\nnserver: ns.ok.dn42\n"),
        file("domain: a.dn42\ndomain: b.dn42\nnserver: ns.a.dn42\n"),
        file("domain: bad_name.dn42\nnserver: ns.a.dn42\n"),
        file("domain: c.dn42\nnserver: ns.c.dn42\nnserver: ns2.c.dn42 not-an-address\nnserver:\n"),
        file("domain: d.dn42\nnserver: ns.d.dn42\nnserver:\nnserver: bad..name\n"),
    ];
    assert_eq!(
        domain_fault_texts(&files),
        vec![
            "No domain in record \"data/dns/object\"",
            "Multiple domain fields in record: \"data/dns/object\"",
            "Invalid domain FQDN in record \"data/dns/object\": Label 'bad_name' contains invalid character '_'",
            "Invalid nameserver IP in record \"data/dns/object\" : invalid IP address syntax",
            "Invalid nameserver format in record: \"data/dns/object\" : ",
        ]
    );
    assert_eq!(
        ExtractedDomainInfo::try_from(&files[0]).unwrap_err(),
        "No domain in record \"data/dns/object\""
    );
}

#[test]
fn registry_sync_names_say_what_is_wrong() {
    let fault = |name: &str| {
        extract_ip_from_registry_sync_domain(&FQDNName::new(name).unwrap()).unwrap_err()
    };
    assert_eq!(
        fault("a.registry-sync.dn42"),
        "Invalid registry-sync domain: a.registry-sync.dn42, should have at least 4 labels"
    );
    assert_eq!(
        fault("1.1.25.10.ipv5.registry-sync.dn42"),
        "Invalid IP version label in domain: 1.1.25.10.ipv5.registry-sync.dn42"
    );
    assert_eq!(
        fault("1.25.10.ipv4.registry-sync.dn42"),
        "Invalid IPv4 registry-sync domain labels: 1.25.10.ipv4.registry-sync.dn42, should have exactly 7 labels: A.B.C.D.ipv4.registry-sync.dn42"
    );
    // The labels are read from the fourth back to the first.
    assert_eq!(
        fault("x.1.256.10.ipv4.registry-sync.dn42"),
        "Failed to parse IPv4 octets from labels x.1.256.10.ipv4.registry-sync.dn42: number too large to fit in target type"
    );
    assert_eq!(
        fault("x.1.25.10.ipv4.registry-sync.dn42"),
        "Failed to parse IPv4 octets from labels x.1.25.10.ipv4.registry-sync.dn42: invalid digit found in string"
    );
    assert_eq!(
        fault("1.2.ipv6.registry-sync.dn42"),
        "Invalid IPv6 registry-sync domain labels: 1.2.ipv6.registry-sync.dn42, should have exactly 35 labels"
    );
    let wide = "1.0.1.0.0.0.0.0.0.0.0.0.0.0.0.0.0.0.0.0.a.b.f.f.a.b.f.f.0.0.d.1f.ipv6.registry-sync.dn42";
    assert_eq!(
        fault(wide),
        format!("Failed to parse IPv6 nibbles from labels {}: number too large to fit in target type", wide)
    );
    let files = vec![
        file("domain: a.dn42\nnserver: 1.1.25.10.ipv4.registry-sync.dn42\nnserver: 9.ipv4.registry-sync.dn42\n"),
        file("domain: bad..name\nnserver: 8.ipv4.registry-sync.dn42\n"),
    ];
    assert_eq!(
        registry_sync_fault_texts(&files),
        vec![
            "Invalid IPv4 registry-sync domain labels: 9.ipv4.registry-sync.dn42, should have exactly 7 labels: A.B.C.D.ipv4.registry-sync.dn42"
        ]
    );
}

#[test]
fn records_that_a_zone_does_not_take_say_so() {
    let files = vec![
        file("domain: a.dn42\nnserver: ns.other.neo 10.0.0.1\nnserver: ns.a.dn42 fd42::1\n"),
        file("domain: dn42.\nnserver: ns.dn42\nds-rdata: 1 2 3 ab\n"),
        file("descr: nothing\n"),
    ];
    assert_eq!(
        forward_rejection_texts(&files),
        vec![
            "Failed to add glue record to zone dn42: Record name 'ns.other.neo' is not within the zone origin 'dn42'",
            "Failed to add NS record to zone dn42: Record name 'dn42.' is not within the zone origin 'dn42'",
            "Failed to add DS record to zone dn42: Record name 'dn42.' is not within the zone origin 'dn42'",
        ]
    );
}
