use dn42_roa_generator::formatter::dns_zone::{
    calculate_default_ttl, ensure_fqdn, format_dns_zone, generate_header, generate_record_data,
    generate_record_lines, generate_soa_header,
};
use dn42_roa_generator::model::dns::{DNSClass, DNSRecord, DNSRecordData, DNSZone, FQDNName};
use dn42_roa_generator::model::net::{Ipv4Addr, Ipv6Addr};
use dn42_roa_generator::parser::dns::new_zone;

fn record(name: &str, ttl: u32, data: DNSRecordData) -> DNSRecord {
    DNSRecord { name: FQDNName::new(name).unwrap(), class: DNSClass::IN, ttl, data }
}

fn zone(origin: &str, records: Vec<DNSRecord>) -> DNSZone {
    let mut zone = new_zone(
        FQDNName::new(origin).unwrap(),
        "ns1.example.dn42".to_string(),
        "hostmaster.example.dn42.".to_string(),
        2024,
    );
    for r in records {
        zone.add_record(r).unwrap();
    }
    zone
}

const HEAD: &str = "$TTL 3600\n\
$ORIGIN dn42.\n\
@ IN SOA ns1.example.dn42. hostmaster.example.dn42. (\n\
\x20               2024 ; serial number\n\
\x20               3600 ; refresh\n\
\x20               600 ; update retry\n\
\x20               604800 ; expiry\n\
\x20               1440 ) ; minimum\n\
\n";

#[test]
fn zone_file_of_a_zone_without_records() {
    assert_eq!(format_dns_zone(&zone("dn42", vec![])), HEAD);
}

#[test]
fn zone_file_with_every_type_of_record() {
    let z = zone(
        "dn42",
        vec![
            record("burble.dn42", 3600, DNSRecordData::NS("ns1.burble.dn42".to_string())),
            record("ns1.burble.dn42", 3600, DNSRecordData::A(Ipv4Addr::new(172, 20, 129, 1))),
            record("dn42", 3600, DNSRecordData::NS("ns.dn42.".to_string())),
            record(
                "burble.dn42",
                300,
                DNSRecordData::TXT(vec!["v=spf1 \"quoted\" -all".to_string(), "second".to_string()]),
            ),
            record(
                "burble.dn42",
                3600,
                DNSRecordData::MX { preference: 10, exchange: "mail.burble.dn42".to_string() },
            ),
            record(
                "ns1.burble.dn42",
                86400,
                DNSRecordData::AAAA(Ipv6Addr::new(0xfd42, 0, 0, 0, 0, 0, 0, 1)),
            ),
            record("www.burble.dn42", 3600, DNSRecordData::CNAME("burble.dn42".to_string())),
            record(
                "burble.dn42",
                3600,
                DNSRecordData::SRV {
                    priority: 1,
                    weight: 2,
                    port: 5060,
                    target: "sip.burble.dn42.".to_string(),
                },
            ),
            record("burble.dn42", 3600, DNSRecordData::DS("61857 13 2 ABCD".to_string())),
            record("ptr.dn42", 3600, DNSRecordData::PTR("host.dn42.".to_string())),
        ],
    );
    let line = |name: &str, ttl: &str, kind: &str, data: &str| {
        format!("{:<10} {:<5}  IN  {:<5} {}\n", name, ttl, kind, data)
    };
    let expected = [
        HEAD.to_string(),
        line("burble", "", "DS", "61857 13 2 ABCD"),
        line("burble", "", "MX", "10 mail.burble.dn42."),
        line("burble", "", "NS", "ns1.burble.dn42."),
        line("burble", "", "SRV", "1 2 5060 sip.burble.dn42."),
        line("burble", "300", "TXT", "\"v=spf1 \\\"quoted\\\" -all\" \"second\""),
        line("@", "", "NS", "ns.dn42."),
        line("ns1.burble", "", "A", "172.20.129.1"),
        line("ns1.burble", "86400", "AAAA", "fd42::1"),
        line("ptr", "", "PTR", "host.dn42."),
        line("www.burble", "", "CNAME", "burble.dn42."),
    ]
    .concat();
    let text = format_dns_zone(&z);
    assert_eq!(text, expected);
    // One line written out in full, character by character.
    assert!(text.contains("\n@                 IN  NS    ns.dn42.\n"));
    assert!(text.contains("\nns1.burble 86400  IN  AAAA  fd42::1\n"));
}

#[test]
fn default_ttl_is_blank_in_every_line() {
    let z = zone(
        "dn42",
        vec![
            record("b.dn42", 3600, DNSRecordData::NS("ns.b.dn42".to_string())),
            record("a.dn42", 3600, DNSRecordData::NS("ns.a.dn42".to_string())),
            record("dn42", 3600, DNSRecordData::NS("ns.dn42".to_string())),
        ],
    );
    assert_eq!(calculate_default_ttl(&z), 3600);
    let text = format_dns_zone(&z);
    let lines: Vec<&str> = text[HEAD.len()..].lines().collect();
    assert_eq!(
        lines,
        vec![
            "a          IN  NS   ns.a.dn42.",
            "b          IN  NS   ns.b.dn42.",
            "@          IN  NS   ns.dn42.",
        ]
    );
    for l in lines {
        assert_eq!(&l[5..11], "      ");
    }
}

#[test]
fn default_ttl_is_the_most_frequent_one() {
    let z = zone(
        "dn42",
        vec![
            record("a.dn42", 60, DNSRecordData::NS("n1.".to_string())),
            record("b.dn42", 7200, DNSRecordData::NS("n2.".to_string())),
            record("c.dn42", 7200, DNSRecordData::NS("n3.".to_string())),
            record("d.dn42", 123456, DNSRecordData::NS("n4.".to_string())),
        ],
    );
    assert_eq!(calculate_default_ttl(&z), 7200);
    let text = format_dns_zone(&z);
    assert!(text.starts_with("$TTL 7200\n$ORIGIN dn42.\n"));
    let lines: Vec<&str> = text.lines().skip(9).collect();
    assert_eq!(
        lines,
        vec![
            "a     60      IN  NS   n1.",
            "b             IN  NS   n2.",
            "c             IN  NS   n3.",
            "d     123456  IN  NS   n4.",
        ]
    );
}

#[test]
fn default_ttl_of_several_equally_frequent_ones_is_the_first() {
    let z = zone(
        "dn42",
        vec![
            record("a.dn42", 60, DNSRecordData::NS("n1.".to_string())),
            record("b.dn42", 7200, DNSRecordData::NS("n2.".to_string())),
        ],
    );
    assert_eq!(calculate_default_ttl(&z), 60);
    assert_eq!(calculate_default_ttl(&zone("dn42", vec![])), 3600);
}

#[test]
fn txt_quotes_are_escaped() {
    let mut buffer = String::new();
    generate_record_data(&mut buffer, &DNSRecordData::TXT(vec!["say \"hi\"".to_string()]));
    assert_eq!(buffer, "\"say \\\"hi\\\"\"");
    let mut more = String::from("x ");
    generate_record_data(
        &mut more,
        &DNSRecordData::TXT(vec!["a".to_string(), "".to_string(), "\"".to_string()]),
    );
    assert_eq!(more, "x \"a\" \"\" \"\\\"\"");
}

#[test]
fn records_with_the_same_name_and_type_keep_their_order() {
    let z = zone(
        "dn42",
        vec![
            record("a.dn42", 3600, DNSRecordData::NS("zz.".to_string())),
            record("a.dn42", 3600, DNSRecordData::A(Ipv4Addr::new(10, 0, 0, 1))),
            record("a.dn42", 3600, DNSRecordData::NS("aa.".to_string())),
            record("a.dn42", 3600, DNSRecordData::NS("mm.".to_string())),
        ],
    );
    let text = format_dns_zone(&z);
    let data: Vec<&str> = text[HEAD.len()..].lines().map(|l| &l[20..]).collect();
    assert_eq!(data, vec!["10.0.0.1", "zz.", "aa.", "mm."]);
}

#[test]
fn a_zone_below_the_top_names_its_records_from_its_origin() {
    let mut z = new_zone(
        FQDNName::new("in-addr.arpa").unwrap(),
        "@".to_string(),
        "host@master".to_string(),
        1,
    );
    z.add_record(record("in-addr.arpa", 3600, DNSRecordData::NS("ns.".to_string()))).unwrap();
    z.add_record(record(
        "0.2.0.192.in-addr.arpa",
        3600,
        DNSRecordData::CNAME("0.0/25.2.0.192.in-addr.arpa".to_string()),
    ))
    .unwrap();
    let text = format_dns_zone(&z);
    assert!(text.starts_with(
        "$TTL 3600\n$ORIGIN in-addr.arpa.\n@ IN SOA . host.master. (\n"
    ));
    assert!(text.ends_with(
        "0.2.0.192      IN  CNAME 0.0/25.2.0.192.in-addr.arpa.\n\
         @              IN  NS    ns.\n"
    ));
}

#[test]
fn ensure_fqdn_adds_a_dot() {
    assert_eq!(ensure_fqdn("ns1.example.dn42"), "ns1.example.dn42.");
    assert_eq!(ensure_fqdn("ns1.example.dn42."), "ns1.example.dn42.");
    assert_eq!(ensure_fqdn("hostmaster@example.dn42"), "hostmaster.example.dn42.");
    assert_eq!(ensure_fqdn("@"), ".");
    assert_eq!(ensure_fqdn(""), ".");
}

#[test]
fn header_and_soa_block_alone() {
    let mut buffer = String::from("; head\n");
    generate_header(&mut buffer, 300, "dn42");
    assert_eq!(buffer, "; head\n$TTL 300\n$ORIGIN dn42.\n");
    let mut soa = String::new();
    generate_soa_header(
        &mut soa,
        &DNSRecordData::SOA {
            mname: "a".to_string(),
            rname: "b.".to_string(),
            serial: 4294967295,
            refresh: 0,
            retry: 1,
            expire: 2,
            minimum: 3,
        },
    );
    assert_eq!(
        soa,
        "@ IN SOA a. b. (\n\
         \x20               4294967295 ; serial number\n\
         \x20               0 ; refresh\n\
         \x20               1 ; update retry\n\
         \x20               2 ; expiry\n\
         \x20               3 ) ; minimum\n\
         \n"
    );
}

#[test]
fn record_lines_alone_skip_names_outside_the_origin() {
    let records = vec![
        record("a.neo", 3600, DNSRecordData::NS("n.".to_string())),
        record("a.dn42", 3600, DNSRecordData::NS("n.".to_string())),
        record(
            "dn42",
            3600,
            DNSRecordData::SOA {
                mname: "a".to_string(),
                rname: "b".to_string(),
                serial: 1,
                refresh: 1,
                retry: 1,
                expire: 1,
                minimum: 1,
            },
        ),
    ];
    let mut buffer = String::new();
    generate_record_lines(&mut buffer, &records, FQDNName::new("dn42").unwrap(), 3600);
    assert_eq!(buffer, "a          IN  NS   n.\n");
}
