//! Forward zones from domain objects and reverse zones from network objects.
use crate::clock::current_serial;
use crate::model::dns::{
    add_all, fault_text, is_plain_char, labels, lemma_add_all_concat, lemma_plain_label,
    lower_label, lower_labels, name_fault, outside_message, plain_label, record_views,
    type_mnemonic, within, zone_views, DNSClass, DNSRecord, DNSRecordData, DNSZone, FQDNName,
    RecordDataView, RecordView, ZoneView,
};
use crate::model::net::{parse_ip, parse_ip_chars, IpAddr, Ipv4Addr, Ipv6Addr};
use crate::model::record::{
    bit_at, lemma_masked_bit, masked, octet_bit, parse_prefix, prefix_fault_text, prefix_text,
    Prefix,
    PrefixView, RecordField, RecordFile, RecordFileView,
};
use crate::model::tree::{built, leaves, prefix_views, PrefixTree};
use crate::text::{
    append_chars, char_of_digit, clone_strings, decimal, decimal_chars, digit_char, first_tokens,
    free_of, is_ascii_digit, join, join_chars, lemma_decimal_value, lemma_split_join,
    number_fault, number_fault_text, parse_unsigned, parse_unsigned_or_fault, push_decimal,
    same_chars, slice_chars, split, split_chars, str_chars, string_from_chars, string_of,
    string_views, to_lower, tokens, views, NumberFault,
};
use vstd::prelude::*;

verus! {

/// The time to live of every record that is made here.
pub const DEFAULT_TTL: u32 = 3600;

/// A name server of a registry object, with its address where the object gives one.
#[derive(Debug, PartialEq, Eq, Hash)]
pub struct ExtractedNameServerInfo {
    pub name_server: FQDNName,
    pub name_server_ip: Option<IpAddr>,
}

/// The mathematical value of an `ExtractedNameServerInfo`.
pub struct NameServerView {
    pub name: Seq<char>,
    pub ip: Option<Seq<u8>>,
}

impl View for ExtractedNameServerInfo {
    type V = NameServerView;

    open spec fn view(&self) -> NameServerView {
        NameServerView {
            name: self.name_server@,
            ip: match self.name_server_ip {
                Some(a) => Some(a@),
                None => None,
            },
        }
    }
}

impl Clone for ExtractedNameServerInfo {
    fn clone(&self) -> (r: Self)
        ensures
            r@ == self@,
    {
        ExtractedNameServerInfo {
            name_server: self.name_server.clone(),
            name_server_ip: match &self.name_server_ip {
                Some(a) => Some(*a),
                None => None,
            },
        }
    }
}

/// The values of the name servers, one by one.
pub open spec fn name_server_views(s: Seq<ExtractedNameServerInfo>) -> Seq<NameServerView> {
    Seq::new(s.len(), |i: int| s[i]@)
}

/// The name server that a value of the `nserver` field gives: the first word is its name, the
/// second word, where there is one, its address; further words do not count.
pub open spec fn parse_name_server(line: Seq<char>) -> Option<NameServerView> {
    let t = tokens(line);
    if t.len() == 0 || name_fault(t[0]) is Some {
        None
    } else if t.len() == 1 {
        Some(NameServerView { name: to_lower(t[0]), ip: None })
    } else {
        match parse_ip(t[1]) {
            Some(o) => Some(NameServerView { name: to_lower(t[0]), ip: Some(o) }),
            None => None,
        }
    }
}

/// The name servers that the values give, in order; nothing where one of the values gives
/// none.
pub open spec fn parse_name_servers(lines: Seq<Seq<char>>) -> Option<Seq<NameServerView>>
    decreases lines.len(),
{
    if lines.len() == 0 {
        Some(Seq::empty())
    } else {
        match (parse_name_servers(lines.drop_last()), parse_name_server(lines.last())) {
            (Some(front), Some(n)) => Some(front.push(n)),
            _ => None,
        }
    }
}

/// The path of a registry object as a message names it: between double quotes, as it is.
pub open spec fn quoted_path(path: Seq<char>) -> Seq<char> {
    seq!['"'] + path + seq!['"']
}

/// What is wrong with a value of the `nserver` field that gives no name server, in the
/// object at `path`: it has no word, or its first word is no domain name, or its second word
/// is no address.
pub open spec fn name_server_fault_text(path: Seq<char>, line: Seq<char>) -> Seq<char> {
    let t = tokens(line);
    if t.len() == 0 {
        "Invalid nameserver format in record: "@ + quoted_path(path) + " : "@ + line
    } else {
        match name_fault(t[0]) {
            Some(f) => "Invalid nameserver FQDN in record "@ + quoted_path(path) + " : "@
                + fault_text(f),
            None => "Invalid nameserver IP in record "@ + quoted_path(path)
                + " : invalid IP address syntax"@,
        }
    }
}

/// What is wrong with the first of the values that gives no name server.
pub open spec fn name_servers_fault_text(path: Seq<char>, lines: Seq<Seq<char>>) -> Seq<char>
    decreases lines.len(),
{
    if lines.len() == 0 {
        Seq::empty()
    } else if parse_name_servers(lines.drop_last()) is None {
        name_servers_fault_text(path, lines.drop_last())
    } else {
        name_server_fault_text(path, lines.last())
    }
}

/// The beginning of a message about the object at `path`: the words, then the path between
/// double quotes.
fn message_about(words: &str, path: &str) -> (msg: Vec<char>)
    ensures
        msg@ == words@ + quoted_path(path@),
{
    let mut msg: Vec<char> = str_chars(words);
    msg.push('"');
    append_chars(&mut msg, &str_chars(path));
    msg.push('"');
    assert(msg@ =~= words@ + quoted_path(path@));
    msg
}

impl ExtractedNameServerInfo {
    /// The name server that a value of the `nserver` field gives, or what is wrong with the
    /// value, in a message that names the object at `file_path`.
    pub fn parse(line: &str, file_path: &str) -> (r: Result<Self, String>)
        ensures
            match parse_name_server(line@) {
                Some(n) => r is Ok && r.unwrap()@ == n,
                None => r is Err && r.unwrap_err()@ == name_server_fault_text(file_path@, line@),
            },
    {
        let v = str_chars(line);
        let parts = first_tokens(&v, 2);
        assert(views(parts@).len() == parts.len());
        if parts.len() == 0 {
            let mut msg = message_about("Invalid nameserver format in record: ", file_path);
            append_chars(&mut msg, &str_chars(" : "));
            append_chars(&mut msg, &v);
            return Err(string_from_chars(&msg));
        }
        assert(views(parts@)[0] == parts@[0]@);
        let name_text = string_from_chars(&parts[0]);
        let name_server = match FQDNName::new(name_text.as_str()) {
            Ok(n) => n,
            Err(e) => {
                let mut msg = message_about("Invalid nameserver FQDN in record ", file_path);
                append_chars(&mut msg, &str_chars(" : "));
                append_chars(&mut msg, &str_chars(e.to_text().as_str()));
                return Err(string_from_chars(&msg));
            },
        };
        if parts.len() == 1 {
            return Ok(ExtractedNameServerInfo { name_server, name_server_ip: None });
        }
        assert(views(parts@)[1] == parts@[1]@);
        match parse_ip_chars(&parts[1]) {
            Some(a) => Ok(ExtractedNameServerInfo { name_server, name_server_ip: Some(a) }),
            None => {
                let mut msg = message_about("Invalid nameserver IP in record ", file_path);
                append_chars(&mut msg, &str_chars(" : invalid IP address syntax"));
                Err(string_from_chars(&msg))
            },
        }
    }

    /// The name servers of a registry object, in the order of its `nserver` lines, or what
    /// is wrong with the first line that gives none.
    #[verifier::loop_isolation(false)]
    pub fn list_from(record_file: &RecordFile) -> (r: Result<Vec<Self>, String>)
        ensures
            match parse_name_servers(record_file@.values(RecordField::NameServer)) {
                Some(ns) => r is Ok && name_server_views(r.unwrap()@) == ns,
                None => r is Err && r.unwrap_err()@ == name_servers_fault_text(
                    record_file@.path,
                    record_file@.values(RecordField::NameServer),
                ),
            },
    {
        let mut found: Vec<ExtractedNameServerInfo> = Vec::new();
        match record_file.get_field(RecordField::NameServer) {
            None => {
                assert(name_server_views(found@) =~= Seq::empty());
                Ok(found)
            },
            Some(lines) => {
                let ghost all = string_views(lines@);
                let mut i: usize = 0;
                assert(name_server_views(found@) =~= Seq::empty());
                assert(all.subrange(0, 0) =~= Seq::<Seq<char>>::empty());
                while i < lines.len()
                    invariant
                        i <= lines.len(),
                        all == string_views(lines@),
                        parse_name_servers(all.subrange(0, i as int)) == Some(
                            name_server_views(found@),
                        ),
                    decreases lines.len() - i,
                {
                    let ghost next = all.subrange(0, i + 1);
                    proof {
                        assert(next.drop_last() == all.subrange(0, i as int));
                        assert(next.last() == lines@[i as int]@);
                    }
                    match ExtractedNameServerInfo::parse(
                        lines[i].as_str(),
                        record_file.get_file_path(),
                    ) {
                        Ok(n) => {
                            assert(name_server_views(found@.push(n)) =~= name_server_views(
                                found@,
                            ).push(n@));
                            found.push(n);
                        },
                        Err(e) => {
                            proof {
                                lemma_name_servers_fail(record_file@.path, all, i as int);
                            }
                            return Err(e);
                        },
                    }
                    i += 1;
                }
                assert(all.subrange(0, lines.len() as int) == all);
                Ok(found)
            },
        }
    }
}

/// Where the values before place `i` give name servers and the value at `i` gives none, the
/// values as a whole give none, and what is wrong with them is what is wrong with that value.
pub proof fn lemma_name_servers_fail(path: Seq<char>, lines: Seq<Seq<char>>, i: int)
    requires
        0 <= i < lines.len(),
        parse_name_servers(lines.subrange(0, i)) is Some,
        parse_name_server(lines[i]) is None,
    ensures
        parse_name_servers(lines) is None,
        name_servers_fault_text(path, lines) == name_server_fault_text(path, lines[i]),
    decreases lines.len(),
{
    let front = lines.drop_last();
    if i == lines.len() - 1 {
        assert(front == lines.subrange(0, i));
    } else {
        assert(front.subrange(0, i) == lines.subrange(0, i));
        assert(front[i] == lines[i]);
        lemma_name_servers_fail(path, front, i);
    }
}

/// What a registry object says of a network: its address block, its name servers, and the
/// data of its DS records.
#[derive(Debug, PartialEq, Eq, Hash)]
pub struct ExtractedNetworkInfo {
    pub cidr: Prefix,
    pub name_servers: Vec<ExtractedNameServerInfo>,
    pub ds_rdata: Vec<String>,
}

/// The mathematical value of an `ExtractedNetworkInfo`.
pub struct NetworkInfoView {
    pub cidr: PrefixView,
    pub name_servers: Seq<NameServerView>,
    pub ds_rdata: Seq<Seq<char>>,
}

impl View for ExtractedNetworkInfo {
    type V = NetworkInfoView;

    open spec fn view(&self) -> NetworkInfoView {
        NetworkInfoView {
            cidr: self.cidr@,
            name_servers: name_server_views(self.name_servers@),
            ds_rdata: string_views(self.ds_rdata@),
        }
    }
}

/// What a registry object says of a domain: its name, its last label, its name servers, and
/// the data of its DS records.
#[derive(Debug, PartialEq, Eq, Hash)]
pub struct ExtractedDomainInfo {
    pub domain: FQDNName,
    pub tld: String,
    pub name_servers: Vec<ExtractedNameServerInfo>,
    pub ds_rdata: Vec<String>,
}

/// The mathematical value of an `ExtractedDomainInfo`.
pub struct DomainInfoView {
    pub domain: Seq<char>,
    pub tld: Seq<char>,
    pub name_servers: Seq<NameServerView>,
    pub ds_rdata: Seq<Seq<char>>,
}

impl View for ExtractedDomainInfo {
    type V = DomainInfoView;

    open spec fn view(&self) -> DomainInfoView {
        DomainInfoView {
            domain: self.domain@,
            tld: self.tld@,
            name_servers: name_server_views(self.name_servers@),
            ds_rdata: string_views(self.ds_rdata@),
        }
    }
}

/// What a registry object says of a domain. It must have one `domain` field, which holds a
/// domain name, and each of its `nserver` fields must give a name server.
pub open spec fn extract_domain(r: RecordFileView) -> Option<DomainInfoView> {
    let d = r.values(RecordField::Domain);
    if d.len() != 1 || name_fault(d[0]) is Some {
        None
    } else {
        match parse_name_servers(r.values(RecordField::NameServer)) {
            Some(ns) => Some(
                DomainInfoView {
                    domain: to_lower(d[0]),
                    tld: labels(to_lower(d[0])).last(),
                    name_servers: ns,
                    ds_rdata: r.values(RecordField::DSRdata),
                },
            ),
            None => None,
        }
    }
}

/// What a registry object says of a network. It must have one `cidr` field, which holds an
/// address block, and each of its `nserver` fields must give a name server.
pub open spec fn extract_network(r: RecordFileView) -> Option<NetworkInfoView> {
    let c = r.values(RecordField::Cidr);
    if c.len() != 1 || parse_prefix(c[0]) is None {
        None
    } else {
        match parse_name_servers(r.values(RecordField::NameServer)) {
            Some(ns) => Some(
                NetworkInfoView {
                    cidr: parse_prefix(c[0]).unwrap(),
                    name_servers: ns,
                    ds_rdata: r.values(RecordField::DSRdata),
                },
            ),
            None => None,
        }
    }
}

/// What is wrong with a registry object that says nothing of a domain: it has no `domain`
/// field or more than one, or the field holds no domain name, or one of its `nserver` fields
/// gives no name server.
pub open spec fn domain_fault_text(r: RecordFileView) -> Seq<char> {
    let d = r.values(RecordField::Domain);
    if d.len() == 0 {
        "No domain in record "@ + quoted_path(r.path)
    } else if d.len() != 1 {
        "Multiple domain fields in record: "@ + quoted_path(r.path)
    } else {
        match name_fault(d[0]) {
            Some(f) => "Invalid domain FQDN in record "@ + quoted_path(r.path) + ": "@
                + fault_text(f),
            None => name_servers_fault_text(r.path, r.values(RecordField::NameServer)),
        }
    }
}

/// What is wrong with a registry object that says nothing of a network: it has no `cidr`
/// field or more than one, or the field holds no address block, or one of its `nserver`
/// fields gives no name server.
pub open spec fn network_fault_text(r: RecordFileView) -> Seq<char> {
    let c = r.values(RecordField::Cidr);
    if c.len() == 0 {
        "No cidr in record "@ + quoted_path(r.path)
    } else if c.len() != 1 {
        "Multiple cidr fields in record: "@ + quoted_path(r.path)
    } else if parse_prefix(c[0]) is None {
        "Invalid cidr in record "@ + quoted_path(r.path) + ": "@ + prefix_fault_text(c[0])
    } else {
        name_servers_fault_text(r.path, r.values(RecordField::NameServer))
    }
}

/// The values of the `ds-rdata` field of a registry object.
fn ds_rdata_of(record_file: &RecordFile) -> (r: Vec<String>)
    ensures
        string_views(r@) == record_file@.values(RecordField::DSRdata),
{
    match record_file.get_field(RecordField::DSRdata) {
        Some(list) => clone_strings(list),
        None => {
            let r: Vec<String> = Vec::new();
            assert(string_views(r@) =~= Seq::empty());
            r
        },
    }
}

impl ExtractedDomainInfo {
    /// What the registry object says of a domain, as `extract_domain` has it, or what is
    /// wrong with the object, as `domain_fault_text` says it.
    pub fn try_from(record_file: &RecordFile) -> (r: Result<Self, String>)
        ensures
            match extract_domain(record_file@) {
                Some(d) => r is Ok && r.unwrap()@ == d,
                None => r is Err && r.unwrap_err()@ == domain_fault_text(record_file@),
            },
    {
        let path = record_file.get_file_path();
        let domains = match record_file.get_field(RecordField::Domain) {
            Some(d) => d,
            None => {
                return Err(string_from_chars(&message_about("No domain in record ", path)));
            },
        };
        if domains.len() != 1 {
            return Err(
                string_from_chars(&message_about("Multiple domain fields in record: ", path)),
            );
        }
        assert(string_views(domains@)[0] == domains@[0]@);
        let domain = match FQDNName::new(domains[0].as_str()) {
            Ok(d) => d,
            Err(e) => {
                let mut msg = message_about("Invalid domain FQDN in record ", path);
                append_chars(&mut msg, &str_chars(": "));
                append_chars(&mut msg, &str_chars(e.to_text().as_str()));
                return Err(string_from_chars(&msg));
            },
        };
        let tld = domain.tld().unwrap();
        let name_servers = match ExtractedNameServerInfo::list_from(record_file) {
            Ok(ns) => ns,
            Err(e) => {
                return Err(e);
            },
        };
        let ds_rdata = ds_rdata_of(record_file);
        Ok(ExtractedDomainInfo { domain, tld, name_servers, ds_rdata })
    }
}

impl ExtractedNetworkInfo {
    /// What the registry object says of a network, as `extract_network` has it, or what is
    /// wrong with the object, as `network_fault_text` says it.
    pub fn try_from(record_file: &RecordFile) -> (r: Result<Self, String>)
        ensures
            match extract_network(record_file@) {
                Some(n) => r is Ok && r.unwrap()@ == n,
                None => r is Err && r.unwrap_err()@ == network_fault_text(record_file@),
            },
    {
        let path = record_file.get_file_path();
        let prefixes = match record_file.get_field(RecordField::Cidr) {
            Some(p) => p,
            None => {
                return Err(string_from_chars(&message_about("No cidr in record ", path)));
            },
        };
        if prefixes.len() != 1 {
            return Err(
                string_from_chars(&message_about("Multiple cidr fields in record: ", path)),
            );
        }
        assert(string_views(prefixes@)[0] == prefixes@[0]@);
        let cidr = match Prefix::from_str(prefixes[0].as_str()) {
            Ok(c) => c,
            Err(e) => {
                let mut msg = message_about("Invalid cidr in record ", path);
                append_chars(&mut msg, &str_chars(": "));
                append_chars(&mut msg, &str_chars(e.as_str()));
                return Err(string_from_chars(&msg));
            },
        };
        let name_servers = match ExtractedNameServerInfo::list_from(record_file) {
            Ok(ns) => ns,
            Err(e) => {
                return Err(e);
            },
        };
        let ds_rdata = ds_rdata_of(record_file);
        Ok(ExtractedNetworkInfo { cidr, name_servers, ds_rdata })
    }
}

/// How many reverse delegations of each kind were met.
#[derive(Debug, Default, Clone, Copy, PartialEq, Eq)]
pub struct ReverseRecordCounter {
    pub ipv4_align: usize,
    pub ipv4_non_align: usize,
    pub ipv6_align: usize,
    pub ipv6_non_align: usize,
}

/// The labels `in-addr` and `arpa`.
pub open spec fn in_addr_arpa() -> Seq<Seq<char>> {
    seq![seq!['i', 'n', '-', 'a', 'd', 'd', 'r'], seq!['a', 'r', 'p', 'a']]
}

/// The labels `ip6` and `arpa`.
pub open spec fn ip6_arpa() -> Seq<Seq<char>> {
    seq![seq!['i', 'p', '6'], seq!['a', 'r', 'p', 'a']]
}

/// The first `k` octets in decimal, the last of them first.
pub open spec fn reversed_octets(o: Seq<u8>, k: int) -> Seq<Seq<char>> {
    Seq::new(k as nat, |i: int| decimal(o[k - 1 - i] as nat))
}

/// Half-octet `i` of a row of octets, the high half of each octet first.
pub open spec fn nibble(o: Seq<u8>, i: int) -> nat {
    if i % 2 == 0 {
        (o[i / 2] / 16) as nat
    } else {
        (o[i / 2] % 16) as nat
    }
}

/// The first `k` half-octets, each as one hexadecimal digit in lower case, the last first.
pub open spec fn reversed_nibbles(o: Seq<u8>, k: int) -> Seq<Seq<char>> {
    Seq::new(k as nat, |i: int| seq![digit_char(nibble(o, k - 1 - i))])
}

/// The label of a classless delegation: the first octet that is not wholly within the
/// prefix, a slash, and the length of the prefix.
pub open spec fn cidr_label(o: Seq<u8>, len: nat) -> Seq<char> {
    decimal(o[(len / 8) as int] as nat) + seq!['/'] + decimal(len)
}

/// The number of values that the octet which the prefix cuts through can take within it.
pub open spec fn block_size(len: nat) -> nat {
    let r = len % 8;
    if r == 1 {
        128
    } else if r == 2 {
        64
    } else if r == 3 {
        32
    } else if r == 4 {
        16
    } else if r == 5 {
        8
    } else if r == 6 {
        4
    } else if r == 7 {
        2
    } else {
        1
    }
}

/// The labels of the name under which an address block is delegated, if it is delegated. The
/// bits of the address after the prefix do not count.
///
/// IPv4 on an octet boundary: the octets within the prefix, last first, under `in-addr.arpa`.
/// IPv4 off an octet boundary: the classless label, then the same. IPv6 on a half-octet
/// boundary: the half-octets within the prefix, last first, under `ip6.arpa`. IPv6 off such a
/// boundary: none.
pub open spec fn reverse_name_labels(p: PrefixView) -> Option<Seq<Seq<char>>> {
    let o = masked(p.network, p.len);
    if p.network.len() == 4 {
        if p.len % 8 == 0 {
            Some(reversed_octets(o, (p.len / 8) as int) + in_addr_arpa())
        } else {
            Some(seq![cidr_label(o, p.len)] + reversed_octets(o, (p.len / 8) as int) + in_addr_arpa())
        }
    } else if p.len % 4 == 0 {
        Some(reversed_nibbles(o, (p.len / 4) as int) + ip6_arpa())
    } else {
        None
    }
}

/// The name under which an address block is delegated, if it is delegated.
pub open spec fn reverse_name(p: PrefixView) -> Option<Seq<char>> {
    match reverse_name_labels(p) {
        Some(ls) => Some(join(ls, seq!['.'])),
        None => None,
    }
}

/// The labels of the usual reverse name of the address whose next octet is `host`, in an IPv4
/// block off an octet boundary.
pub open spec fn host_labels(p: PrefixView, host: nat) -> Seq<Seq<char>> {
    let o = masked(p.network, p.len);
    seq![decimal(host)] + reversed_octets(o, (p.len / 8) as int) + in_addr_arpa()
}

/// The labels of the name of that address within the classless delegation.
pub open spec fn host_target_labels(p: PrefixView, host: nat) -> Seq<Seq<char>> {
    let o = masked(p.network, p.len);
    seq![decimal(host)] + seq![cidr_label(o, p.len)] + reversed_octets(o, (p.len / 8) as int)
        + in_addr_arpa()
}

/// A record of the Internet class with the usual time to live.
pub open spec fn record(name: Seq<char>, data: RecordDataView) -> RecordView {
    RecordView { name, class: DNSClass::IN, ttl: DEFAULT_TTL, data }
}

/// The address record for the octets of an address: `A` for four octets, `AAAA` otherwise.
pub open spec fn address_data(o: Seq<u8>) -> RecordDataView {
    if o.len() == 4 {
        RecordDataView::A(o)
    } else {
        RecordDataView::AAAA(o)
    }
}

/// The records of a delegation to one name server at `name`: the `NS` record and, where the
/// address of the server is known, an address record at the same name.
pub open spec fn delegation_pair(name: Seq<char>, n: NameServerView) -> Seq<RecordView> {
    seq![record(name, RecordDataView::NS(n.name))] + match n.ip {
        Some(o) => seq![record(name, address_data(o))],
        None => Seq::empty(),
    }
}

/// The records of a delegation to the name servers at `name`, server by server.
pub open spec fn delegation_records(name: Seq<char>, ns: Seq<NameServerView>) -> Seq<RecordView>
    decreases ns.len(),
{
    if ns.len() == 0 {
        Seq::empty()
    } else {
        delegation_records(name, ns.drop_last()) + delegation_pair(name, ns.last())
    }
}

/// The `CNAME` records of an IPv4 block off an octet boundary: one for each value of the
/// octet that the prefix cuts through, from the usual reverse name of the address to its name
/// within the classless delegation.
pub open spec fn cname_records(p: PrefixView) -> Seq<RecordView> {
    let o = masked(p.network, p.len);
    let first = o[(p.len / 8) as int] as nat;
    Seq::new(
        block_size(p.len),
        |i: int|
            record(
                join(host_labels(p, (first + i) as nat), seq!['.']),
                RecordDataView::CNAME(join(host_target_labels(p, (first + i) as nat), seq!['.'])),
            ),
    )
}

/// The records that delegate the reverse names of an address block to its name servers.
pub open spec fn reverse_records(p: PrefixView, ns: Seq<NameServerView>) -> Seq<RecordView> {
    match reverse_name(p) {
        None => Seq::empty(),
        Some(name) => if p.network.len() == 4 && p.len % 8 != 0 {
            cname_records(p) + delegation_records(name, ns)
        } else {
            delegation_records(name, ns)
        },
    }
}

/// The counter after one more address block was met.
pub open spec fn counted(c: ReverseRecordCounter, p: PrefixView) -> ReverseRecordCounter {
    if p.network.len() == 4 {
        if p.len % 8 == 0 {
            ReverseRecordCounter { ipv4_align: (c.ipv4_align + 1) as usize, ..c }
        } else {
            ReverseRecordCounter { ipv4_non_align: (c.ipv4_non_align + 1) as usize, ..c }
        }
    } else if p.len % 4 == 0 {
        ReverseRecordCounter { ipv6_align: (c.ipv6_align + 1) as usize, ..c }
    } else {
        ReverseRecordCounter { ipv6_non_align: (c.ipv6_non_align + 1) as usize, ..c }
    }
}

/// The `DS` records of an address block: one at its reverse name for each of the data, and
/// none where the block has no reverse name.
pub open spec fn reverse_ds_records(p: PrefixView, ds: Seq<Seq<char>>) -> Seq<RecordView> {
    match reverse_name(p) {
        None => Seq::empty(),
        Some(name) => Seq::new(ds.len(), |i: int| record(name, RecordDataView::DS(ds[i]))),
    }
}

/// Whether every text of the list is a plain label.
pub open spec fn all_plain(ls: Seq<Seq<char>>) -> bool {
    forall|i: int| 0 <= i < ls.len() ==> plain_label(#[trigger] ls[i])
}

proof fn lemma_all_plain(ls: Seq<Seq<char>>)
    requires
        all_plain(ls),
        ls.len() > 0,
    ensures
        lower_labels(ls),
{
    assert forall|i: int| 0 <= i < ls.len() implies lower_label(
        #[trigger] ls[i],
    ) by {
        assert(plain_label(ls[i]));
        lemma_plain_label(ls[i]);
    }
}

proof fn lemma_all_plain_concat(a: Seq<Seq<char>>, b: Seq<Seq<char>>)
    requires
        all_plain(a),
        all_plain(b),
    ensures
        all_plain(a + b),
{
    assert forall|i: int| 0 <= i < (a + b).len() implies plain_label(#[trigger] (a + b)[i]) by {
        if i < a.len() {
            assert(plain_label(a[i]));
        } else {
            assert(plain_label(b[i - a.len()]));
        }
    }
}

/// The decimal digits of a number are digits, and a number below 1000 has at most three.
pub proof fn lemma_decimal_digits(n: nat)
    ensures
        decimal(n).len() >= 1,
        forall|i: int| 0 <= i < decimal(n).len() ==> is_ascii_digit(#[trigger] decimal(n)[i]),
        n < 1000 ==> decimal(n).len() <= 3,
        n < 100 ==> decimal(n).len() <= 2,
        n < 10 ==> decimal(n).len() == 1,
    decreases n,
{
    if n >= 10 {
        lemma_decimal_digits(n / 10);
        let front = decimal(n / 10);
        assert forall|i: int| 0 <= i < decimal(n).len() implies is_ascii_digit(
            #[trigger] decimal(n)[i],
        ) by {
            if i < front.len() {
                assert(decimal(n)[i] == front[i]);
            }
        }
    }
}

proof fn lemma_decimal_plain(n: nat)
    requires
        n < 1000,
    ensures
        plain_label(decimal(n)),
{
    lemma_decimal_digits(n);
    let d = decimal(n);
    assert forall|i: int| 0 <= i < d.len() implies is_plain_char(
        #[trigger] d[i],
    ) by {
        assert(is_ascii_digit(d[i]));
    }
    assert(is_ascii_digit(d[0]));
    assert(is_ascii_digit(d[d.len() - 1]));
}

proof fn lemma_cidr_label_plain(o: Seq<u8>, len: nat)
    requires
        len < 1000,
        len / 8 < o.len(),
    ensures
        plain_label(cidr_label(o, len)),
{
    let a = decimal(o[(len / 8) as int] as nat);
    let b = decimal(len);
    lemma_decimal_digits(o[(len / 8) as int] as nat);
    lemma_decimal_digits(len);
    let l = cidr_label(o, len);
    assert forall|i: int| 0 <= i < l.len() implies is_plain_char(
        #[trigger] l[i],
    ) by {
        if i < a.len() {
            assert(is_ascii_digit(a[i]));
        } else if i > a.len() {
            assert(l[i] == b[i - a.len() - 1]);
            assert(is_ascii_digit(b[i - a.len() - 1]));
        }
    }
    assert(l[0] == a[0]);
    assert(is_ascii_digit(a[0]));
    assert(l.last() == b.last());
    assert(is_ascii_digit(b[b.len() - 1]));
}

proof fn lemma_tails_plain()
    ensures
        all_plain(in_addr_arpa()),
        all_plain(ip6_arpa()),
{
    let a = seq!['i', 'n', '-', 'a', 'd', 'd', 'r'];
    let b = seq!['a', 'r', 'p', 'a'];
    let c = seq!['i', 'p', '6'];
    assert(plain_label(a)) by {
        assert forall|i: int| 0 <= i < a.len() implies is_plain_char(
            #[trigger] a[i],
        ) by {
            assert(i == 0 || i == 1 || i == 2 || i == 3 || i == 4 || i == 5 || i == 6);
        }
    }
    assert(plain_label(b)) by {
        assert forall|i: int| 0 <= i < b.len() implies is_plain_char(
            #[trigger] b[i],
        ) by {
            assert(i == 0 || i == 1 || i == 2 || i == 3);
        }
    }
    assert(plain_label(c)) by {
        assert forall|i: int| 0 <= i < c.len() implies is_plain_char(
            #[trigger] c[i],
        ) by {
            assert(i == 0 || i == 1 || i == 2);
        }
    }
    assert forall|i: int| 0 <= i < in_addr_arpa().len() implies plain_label(
        #[trigger] in_addr_arpa()[i],
    ) by {
        assert(i == 0 || i == 1);
    }
    assert forall|i: int| 0 <= i < ip6_arpa().len() implies plain_label(#[trigger] ip6_arpa()[i]) by {
        assert(i == 0 || i == 1);
    }
}

proof fn lemma_reversed_octets_plain(o: Seq<u8>, k: int)
    requires
        0 <= k <= o.len(),
    ensures
        all_plain(reversed_octets(o, k)),
{
    assert forall|i: int| 0 <= i < k implies plain_label(#[trigger] reversed_octets(o, k)[i]) by {
        lemma_decimal_plain(o[k - 1 - i] as nat);
    }
}

proof fn lemma_reversed_nibbles_plain(o: Seq<u8>, k: int)
    requires
        0 <= k <= 2 * o.len(),
    ensures
        all_plain(reversed_nibbles(o, k)),
{
    assert forall|i: int| 0 <= i < k implies plain_label(#[trigger] reversed_nibbles(o, k)[i]) by {
        let l = reversed_nibbles(o, k)[i];
        assert(l == seq![digit_char(nibble(o, k - 1 - i))]);
        assert(nibble(o, k - 1 - i) < 16);
        assert(is_plain_char(l[0]));
    }
}

/// The labels of every reverse name are plain labels, so the name is a domain name.
pub proof fn lemma_reverse_name_labels(p: PrefixView)
    requires
        p.wf(),
        reverse_name_labels(p) is Some,
    ensures
        all_plain(reverse_name_labels(p).unwrap()),
        reverse_name_labels(p).unwrap().len() > 0,
        lower_labels(reverse_name_labels(p).unwrap()),
{
    let o = masked(p.network, p.len);
    lemma_tails_plain();
    if p.network.len() == 4 {
        lemma_reversed_octets_plain(o, (p.len / 8) as int);
        lemma_all_plain_concat(reversed_octets(o, (p.len / 8) as int), in_addr_arpa());
        if p.len % 8 != 0 {
            lemma_cidr_label_plain(o, p.len);
            lemma_all_plain_concat(
                seq![cidr_label(o, p.len)],
                reversed_octets(o, (p.len / 8) as int),
            );
            lemma_all_plain_concat(
                seq![cidr_label(o, p.len)] + reversed_octets(o, (p.len / 8) as int),
                in_addr_arpa(),
            );
        }
    } else {
        lemma_reversed_nibbles_plain(o, (p.len / 4) as int);
        lemma_all_plain_concat(reversed_nibbles(o, (p.len / 4) as int), ip6_arpa());
    }
    lemma_all_plain(reverse_name_labels(p).unwrap());
}

/// The octets as labels in decimal, the last of the first `k` first.
fn reversed_octet_labels(o: &Vec<u8>, k: usize) -> (r: Vec<Vec<char>>)
    requires
        k <= o.len(),
    ensures
        views(r@) == reversed_octets(o@, k as int),
{
    let mut r: Vec<Vec<char>> = Vec::new();
    let mut i: usize = 0;
    while i < k
        invariant
            i <= k <= o.len(),
            r.len() == i,
            forall|j: int| 0 <= j < i ==> r@[j]@ == decimal(o@[k - 1 - j] as nat),
        decreases k - i,
    {
        r.push(decimal_chars(o[k - 1 - i] as u64));
        i += 1;
    }
    assert(views(r@) =~= reversed_octets(o@, k as int));
    r
}

/// The half-octets as labels of one hexadecimal digit, the last of the first `k` first.
fn reversed_nibble_labels(o: &Vec<u8>, k: usize) -> (r: Vec<Vec<char>>)
    requires
        k <= 2 * o.len(),
    ensures
        views(r@) == reversed_nibbles(o@, k as int),
{
    let mut r: Vec<Vec<char>> = Vec::new();
    let mut i: usize = 0;
    while i < k
        invariant
            i <= k <= 2 * o.len(),
            r.len() == i,
            forall|j: int| 0 <= j < i ==> r@[j]@ == seq![digit_char(nibble(o@, k - 1 - j))],
        decreases k - i,
    {
        let at: usize = k - 1 - i;
        let octet: u8 = o[at / 2];
        let nib: u8 = if at % 2 == 0 {
            octet / 16
        } else {
            octet % 16
        };
        let label: Vec<char> = vec![char_of_digit(nib)];
        assert(label@ =~= seq![digit_char(nibble(o@, k - 1 - i))]);
        r.push(label);
        i += 1;
    }
    assert(views(r@) =~= reversed_nibbles(o@, k as int));
    r
}

/// Puts the two labels of the origin of a reverse zone at the end of the labels: `ip6` and
/// `arpa` for IPv6, `in-addr` and `arpa` for IPv4.
fn push_arpa(ls: &mut Vec<Vec<char>>, v6: bool)
    ensures
        views(final(ls)@) == views(old(ls)@) + if v6 {
            ip6_arpa()
        } else {
            in_addr_arpa()
        },
{
    let ghost before = views(ls@);
    let first: Vec<char> = if v6 {
        vec!['i', 'p', '6']
    } else {
        vec!['i', 'n', '-', 'a', 'd', 'd', 'r']
    };
    let second: Vec<char> = vec!['a', 'r', 'p', 'a'];
    proof {
        assert(second@ =~= seq!['a', 'r', 'p', 'a']);
        if v6 {
            assert(first@ =~= seq!['i', 'p', '6']);
        } else {
            assert(first@ =~= seq!['i', 'n', '-', 'a', 'd', 'd', 'r']);
        }
    }
    ls.push(first);
    ls.push(second);
    assert(views(ls@) =~= before + if v6 {
        ip6_arpa()
    } else {
        in_addr_arpa()
    });
}

/// The label of a classless delegation.
fn cidr_label_chars(o: &Vec<u8>, len: u8) -> (r: Vec<char>)
    requires
        len / 8 < o.len(),
    ensures
        r@ == cidr_label(o@, len as nat),
{
    let mut r: Vec<char> = Vec::new();
    push_decimal(&mut r, o[(len / 8) as usize] as u64);
    r.push('/');
    push_decimal(&mut r, len as u64);
    r
}

/// The labels followed by those of `more`.
fn concat_labels(a: Vec<Vec<char>>, more: &Vec<Vec<char>>) -> (r: Vec<Vec<char>>)
    ensures
        views(r@) == views(a@) + views(more@),
{
    let mut r = a;
    let mut i: usize = 0;
    while i < more.len()
        invariant
            i <= more.len(),
            views(r@) == views(a@) + views(more@).subrange(0, i as int),
        decreases more.len() - i,
    {
        let ghost before = views(r@);
        let piece = slice_chars(&more[i], 0, more[i].len());
        assert(piece@ == more@[i as int]@) by {
            assert(more@[i as int]@.subrange(0, more@[i as int]@.len() as int) == more@[i as int]@);
        }
        r.push(piece);
        assert(views(r@) =~= before.push(piece@));
        assert(views(more@).subrange(0, i + 1) =~= views(more@).subrange(0, i as int).push(
            piece@,
        ));
        i += 1;
    }
    assert(views(more@).subrange(0, more.len() as int) == views(more@));
    r
}

/// The octets of the network of the prefix with the bits after the prefix set to zero.
fn masked_octets(cidr: &Prefix) -> (o: Vec<u8>)
    ensures
        o@ == masked(cidr@.network, cidr@.len),
        cidr@.wf(),
        o@.len() == cidr@.network.len(),
{
    let len: u8 = cidr.prefix_len();
    let normal = cidr.with_prefix_len(len);
    normal.unwrap().network().octets_vec()
}

/// The labels of the name under which the address block is delegated.
fn reverse_label_chars(cidr: &Prefix) -> (r: Option<Vec<Vec<char>>>)
    ensures
        match reverse_name_labels(cidr@) {
            Some(ls) => r is Some && views(r.unwrap()@) == ls,
            None => r is None,
        },
{
    let o = masked_octets(cidr);
    let len: u8 = cidr.prefix_len();
    if o.len() == 4 {
        let k: usize = (len / 8) as usize;
        let mut ls: Vec<Vec<char>> = Vec::new();
        if len % 8 != 0 {
            ls.push(cidr_label_chars(&o, len));
        }
        assert(views(ls@) =~= if len % 8 != 0 {
            seq![cidr_label(o@, len as nat)]
        } else {
            Seq::empty()
        });
        let rev = reversed_octet_labels(&o, k);
        let mut ls = concat_labels(ls, &rev);
        push_arpa(&mut ls, false);
        assert(views(ls@) =~= reverse_name_labels(cidr@).unwrap());
        Some(ls)
    } else if len % 4 == 0 {
        let k: usize = (len / 4) as usize;
        let mut ls = reversed_nibble_labels(&o, k);
        push_arpa(&mut ls, true);
        Some(ls)
    } else {
        None
    }
}

/// The name under which the address block is delegated, if it is delegated.
pub fn generate_reverse_record_name(cidr: &Prefix) -> (r: Option<FQDNName>)
    ensures
        match reverse_name(cidr@) {
            Some(n) => r is Some && r.unwrap()@ == n,
            None => r is None,
        },
{
    let len: u8 = cidr.prefix_len();
    match reverse_label_chars(cidr) {
        Some(ls) => {
            proof {
                lemma_reverse_name_labels(cidr@);
            }
            Some(FQDNName::from_labels(&ls))
        },
        None => None,
    }
}

/// In an IPv4 block off an octet boundary, the octet that the prefix cuts through leaves room
/// above it for the whole block.
proof fn lemma_block_fits(p: PrefixView)
    requires
        p.wf(),
        p.network.len() == 4,
        p.len % 8 != 0,
    ensures
        masked(p.network, p.len)[(p.len / 8) as int] + block_size(p.len) <= 256,
{
    let o = masked(p.network, p.len);
    let k = (p.len / 8) as int;
    let r: u8 = (p.len % 8) as u8;
    let h: u8 = o[k];
    assert forall|j: int| r <= j < 8 implies octet_bit(h, j) == 0 by {
        lemma_masked_bit(p.network, p.len, 8 * k + j);
        assert(bit_at(o, 8 * k + j) == octet_bit(o[(8 * k + j) / 8], (8 * k + j) % 8));
    }
    assert(octet_bit(h, 7) == 0);
    assert(r <= 6 ==> octet_bit(h, 6) == 0);
    assert(r <= 5 ==> octet_bit(h, 5) == 0);
    assert(r <= 4 ==> octet_bit(h, 4) == 0);
    assert(r <= 3 ==> octet_bit(h, 3) == 0);
    assert(r <= 2 ==> octet_bit(h, 2) == 0);
    assert(r <= 1 ==> octet_bit(h, 1) == 0);
    assert((r == 1 ==> h <= 128) && (r == 2 ==> h <= 192) && (r == 3 ==> h <= 224) && (r == 4 ==> h
        <= 240) && (r == 5 ==> h <= 248) && (r == 6 ==> h <= 252) && (r == 7 ==> h <= 254))
        by (bit_vector)
        requires
            1 <= r <= 7,
            (h >> 0u8) & 1 == 0,
            r <= 6 ==> (h >> 1u8) & 1 == 0,
            r <= 5 ==> (h >> 2u8) & 1 == 0,
            r <= 4 ==> (h >> 3u8) & 1 == 0,
            r <= 3 ==> (h >> 4u8) & 1 == 0,
            r <= 2 ==> (h >> 5u8) & 1 == 0,
            r <= 1 ==> (h >> 6u8) & 1 == 0,
    ;
}

/// The records of a delegation to the name servers at `name`.
fn delegation_for(name: &FQDNName, name_servers: &[ExtractedNameServerInfo]) -> (r: Vec<DNSRecord>)
    ensures
        record_views(r@) == delegation_records(name@, name_server_views(name_servers@)),
{
    let mut records: Vec<DNSRecord> = Vec::new();
    let ghost all = name_server_views(name_servers@);
    let mut i: usize = 0;
    assert(record_views(records@) =~= delegation_records(name@, all.subrange(0, 0)));
    while i < name_servers.len()
        invariant
            i <= name_servers.len(),
            all == name_server_views(name_servers@),
            record_views(records@) == delegation_records(name@, all.subrange(0, i as int)),
        decreases name_servers.len() - i,
    {
        let ghost before = record_views(records@);
        let ghost next = all.subrange(0, i + 1);
        proof {
            assert(next.drop_last() == all.subrange(0, i as int));
            assert(next.last() == name_servers@[i as int]@);
        }
        let ns = &name_servers[i];
        records.push(
            DNSRecord {
                name: name.clone(),
                class: DNSClass::IN,
                ttl: DEFAULT_TTL,
                data: DNSRecordData::NS(string_of(ns.name_server.as_str())),
            },
        );
        match &ns.name_server_ip {
            Some(ip) => {
                records.push(
                    DNSRecord {
                        name: name.clone(),
                        class: DNSClass::IN,
                        ttl: DEFAULT_TTL,
                        data: match ip {
                            IpAddr::V4(a) => DNSRecordData::A(*a),
                            IpAddr::V6(a) => DNSRecordData::AAAA(*a),
                        },
                    },
                );
            },
            None => {},
        }
        assert(record_views(records@) =~= before + delegation_pair(name@, ns@));
        i += 1;
    }
    assert(all.subrange(0, name_servers.len() as int) == all);
    records
}

/// The number of values that the octet which the prefix cuts through can take within it.
fn block_size_of(len: u8) -> (r: u16)
    ensures
        r == block_size(len as nat),
        1 <= r <= 128,
{
    let r: u8 = len % 8;
    if r == 1 {
        128
    } else if r == 2 {
        64
    } else if r == 3 {
        32
    } else if r == 4 {
        16
    } else if r == 5 {
        8
    } else if r == 6 {
        4
    } else if r == 7 {
        2
    } else {
        1
    }
}

/// The `CNAME` records of an IPv4 block off an octet boundary.
fn cname_records_for(cidr: &Prefix) -> (r: Vec<DNSRecord>)
    requires
        cidr@.network.len() == 4,
        cidr@.len % 8 != 0,
    ensures
        record_views(r@) == cname_records(cidr@),
{
    let o = masked_octets(cidr);
    let len: u8 = cidr.prefix_len();
    let k: usize = (len / 8) as usize;
    let mut rest = reversed_octet_labels(&o, k);
    push_arpa(&mut rest, false);
    let head: Vec<Vec<char>> = vec![cidr_label_chars(&o, len)];
    assert(views(head@) =~= seq![cidr_label(o@, len as nat)]);
    let target_rest = concat_labels(head, &rest);
    let first: u16 = o[k] as u16;
    let size: u16 = block_size_of(len);
    let sep: Vec<char> = vec!['.'];
    assert(sep@ =~= seq!['.']);
    let ghost p = cidr@;
    proof {
        lemma_block_fits(p);
        lemma_tails_plain();
        lemma_reversed_octets_plain(o@, k as int);
        lemma_all_plain_concat(reversed_octets(o@, k as int), in_addr_arpa());
    }
    let mut records: Vec<DNSRecord> = Vec::new();
    let mut i: u16 = 0;
    while i < size
        invariant
            i <= size,
            first + size <= 256,
            size == block_size(p.len),
            first == masked(p.network, p.len)[(p.len / 8) as int],
            p == cidr@,
            sep@ == seq!['.'],
            views(rest@) == reversed_octets(masked(p.network, p.len), (p.len / 8) as int)
                + in_addr_arpa(),
            views(target_rest@) == seq![cidr_label(masked(p.network, p.len), p.len)] + (
            reversed_octets(masked(p.network, p.len), (p.len / 8) as int) + in_addr_arpa()),
            all_plain(views(rest@)),
            records.len() == i,
            forall|j: int| 0 <= j < i ==> records@[j]@ == cname_records(p)[j],
        decreases size - i,
    {
        let host: u64 = (first + i) as u64;
        let host_head: Vec<Vec<char>> = vec![decimal_chars(host)];
        let target_head: Vec<Vec<char>> = vec![decimal_chars(host)];
        proof {
            assert(views(host_head@) =~= seq![decimal(host as nat)]);
            assert(views(target_head@) =~= seq![decimal(host as nat)]);
            lemma_decimal_plain(host as nat);
            assert(all_plain(seq![decimal(host as nat)]));
            lemma_all_plain_concat(seq![decimal(host as nat)], views(rest@));
            lemma_all_plain(seq![decimal(host as nat)] + views(rest@));
        }
        let name_labels = concat_labels(host_head, &rest);
        let target_labels = concat_labels(target_head, &target_rest);
        proof {
            assert(views(name_labels@) =~= host_labels(p, host as nat));
            assert(views(target_labels@) =~= host_target_labels(p, host as nat));
        }
        let name = FQDNName::from_labels(&name_labels);
        let target = join_chars(&target_labels, &sep);
        records.push(
            DNSRecord {
                name,
                class: DNSClass::IN,
                ttl: DEFAULT_TTL,
                data: DNSRecordData::CNAME(string_from_chars(&target)),
            },
        );
        i += 1;
    }
    assert(record_views(records@) =~= cname_records(p));
    records
}

/// Puts the records of `more` at the end of `records`.
pub fn append_records(records: &mut Vec<DNSRecord>, more: Vec<DNSRecord>)
    ensures
        record_views(final(records)@) == record_views(old(records)@) + record_views(more@),
{
    let mut i: usize = 0;
    assert(record_views(records@) =~= record_views(old(records)@) + record_views(more@).subrange(
        0,
        0,
    ));
    while i < more.len()
        invariant
            i <= more.len(),
            record_views(records@) == record_views(old(records)@) + record_views(more@).subrange(
                0,
                i as int,
            ),
        decreases more.len() - i,
    {
        let ghost before = record_views(records@);
        records.push(more[i].clone());
        assert(record_views(records@) =~= before.push(more@[i as int]@));
        assert(record_views(more@).subrange(0, i + 1) =~= record_views(more@).subrange(
            0,
            i as int,
        ).push(more@[i as int]@));
        i += 1;
    }
    assert(record_views(more@).subrange(0, more.len() as int) == record_views(more@));
}

/// The records that delegate the reverse names of the address block to its name servers. The
/// counter of the kind of the block goes up by one.
pub fn generate_reverse_records(
    cidr: &Prefix,
    name_servers: &[ExtractedNameServerInfo],
    counter: &mut ReverseRecordCounter,
) -> (r: Vec<DNSRecord>)
    requires
        old(counter).ipv4_align < usize::MAX,
        old(counter).ipv4_non_align < usize::MAX,
        old(counter).ipv6_align < usize::MAX,
        old(counter).ipv6_non_align < usize::MAX,
    ensures
        record_views(r@) == reverse_records(cidr@, name_server_views(name_servers@)),
        *final(counter) == counted(*old(counter), cidr@),
{
    let len: u8 = cidr.prefix_len();
    let v4 = cidr.network().is_ipv4();
    let mut records: Vec<DNSRecord> = Vec::new();
    assert(record_views(records@) =~= Seq::empty());
    match generate_reverse_record_name(cidr) {
        Some(name) => {
            if v4 && len % 8 != 0 {
                let cnames = cname_records_for(cidr);
                append_records(&mut records, cnames);
                counter.ipv4_non_align = counter.ipv4_non_align + 1;
            } else if v4 {
                counter.ipv4_align = counter.ipv4_align + 1;
            } else {
                counter.ipv6_align = counter.ipv6_align + 1;
            }
            let delegation = delegation_for(&name, name_servers);
            append_records(&mut records, delegation);
        },
        None => {
            counter.ipv6_non_align = counter.ipv6_non_align + 1;
        },
    }
    records
}

/// The `DS` records of the address block: one at its reverse name for each of the data.
pub fn generate_reverse_ds_record(cidr: &Prefix, ds_rdata_list: &[String]) -> (r: Vec<DNSRecord>)
    ensures
        record_views(r@) == reverse_ds_records(cidr@, string_views(ds_rdata_list@)),
{
    let mut records: Vec<DNSRecord> = Vec::new();
    match generate_reverse_record_name(cidr) {
        Some(name) => {
            let mut i: usize = 0;
            while i < ds_rdata_list.len()
                invariant
                    i <= ds_rdata_list.len(),
                    records.len() == i,
                    forall|j: int|
                        0 <= j < i ==> records@[j]@ == record(
                            name@,
                            RecordDataView::DS(ds_rdata_list@[j]@),
                        ),
                decreases ds_rdata_list.len() - i,
            {
                records.push(
                    DNSRecord {
                        name: name.clone(),
                        class: DNSClass::IN,
                        ttl: DEFAULT_TTL,
                        data: DNSRecordData::DS(ds_rdata_list[i].clone()),
                    },
                );
                i += 1;
            }
            assert(record_views(records@) =~= reverse_ds_records(
                cidr@,
                string_views(ds_rdata_list@),
            ));
        },
        None => {
            assert(record_views(records@) =~= Seq::empty());
        },
    }
    records
}

/// The data at the head of every zone that is made here.
pub open spec fn zone_soa(primary: Seq<char>, responsible: Seq<char>, serial: u32) -> RecordDataView {
    RecordDataView::SOA {
        mname: primary,
        rname: responsible,
        serial,
        refresh: 3600,
        retry: 600,
        expire: 604800,
        minimum: 1440,
    }
}

/// The zone of the given origin without a record.
pub open spec fn empty_zone(origin: Seq<char>, soa: RecordDataView) -> ZoneView {
    ZoneView { origin, soa, records: Seq::empty() }
}

/// A new zone of the given origin, with the given name server and mailbox at its head and
/// the usual timers.
pub fn new_zone(
    origin: FQDNName,
    dns_primary_master: String,
    dns_responsible_person: String,
    serial: u32,
) -> (zone: DNSZone)
    ensures
        zone@ == empty_zone(
            origin@,
            zone_soa(dns_primary_master@, dns_responsible_person@, serial),
        ),
{
    DNSZone::new(
        origin,
        DNSRecordData::SOA {
            mname: dns_primary_master,
            rname: dns_responsible_person,
            serial,
            refresh: 3600,
            retry: 600,
            expire: 604800,
            minimum: 1440,
        },
    )
}

/// The values of the registry objects, one by one.
pub open spec fn file_views(s: Seq<RecordFile>) -> Seq<RecordFileView> {
    Seq::new(s.len(), |i: int| s[i]@)
}

/// The values of the networks, one by one.
pub open spec fn network_views(s: Seq<ExtractedNetworkInfo>) -> Seq<NetworkInfoView> {
    Seq::new(s.len(), |i: int| s[i]@)
}

/// The networks that the registry objects delegate: those that can be read and have a name
/// server, in the order of the objects.
pub open spec fn delegated_networks(files: Seq<RecordFileView>) -> Seq<NetworkInfoView>
    decreases files.len(),
{
    if files.len() == 0 {
        Seq::empty()
    } else {
        let front = delegated_networks(files.drop_last());
        match extract_network(files.last()) {
            Some(n) => if n.name_servers.len() > 0 {
                front.push(n)
            } else {
                front
            },
            None => front,
        }
    }
}

/// The address blocks of the networks of one family (four or sixteen octets), in order.
pub open spec fn family_prefixes(nets: Seq<NetworkInfoView>, octets: nat) -> Seq<PrefixView>
    decreases nets.len(),
{
    if nets.len() == 0 {
        Seq::empty()
    } else {
        let front = family_prefixes(nets.drop_last(), octets);
        if nets.last().cidr.network.len() == octets {
            front.push(nets.last().cidr)
        } else {
            front
        }
    }
}

/// The network that speaks for a leaf: the last of the networks whose address block, with
/// the bits after the prefix set to zero, is the leaf.
pub open spec fn network_of(nets: Seq<NetworkInfoView>, leaf: PrefixView) -> Option<NetworkInfoView>
    decreases nets.len(),
{
    if nets.len() == 0 {
        None
    } else if nets.last().cidr.resized(nets.last().cidr.len) == leaf {
        Some(nets.last())
    } else {
        network_of(nets.drop_last(), leaf)
    }
}

/// The records of one leaf: its delegation, then its `DS` records.
pub open spec fn leaf_records(nets: Seq<NetworkInfoView>, leaf: PrefixView) -> Seq<RecordView> {
    match network_of(nets, leaf) {
        Some(n) => reverse_records(leaf, n.name_servers) + reverse_ds_records(leaf, n.ds_rdata),
        None => Seq::empty(),
    }
}

/// The records of the leaves, leaf by leaf.
pub open spec fn leaves_records(nets: Seq<NetworkInfoView>, ls: Seq<PrefixView>) -> Seq<RecordView>
    decreases ls.len(),
{
    if ls.len() == 0 {
        Seq::empty()
    } else {
        leaves_records(nets, ls.drop_last()) + leaf_records(nets, ls.last())
    }
}

/// The counter after the address blocks were met one after another.
pub open spec fn counted_all(c: ReverseRecordCounter, ls: Seq<PrefixView>) -> ReverseRecordCounter
    decreases ls.len(),
{
    if ls.len() == 0 {
        c
    } else {
        counted(counted_all(c, ls.drop_last()), ls.last())
    }
}

/// The origin of the reverse zone of a family.
pub open spec fn reverse_origin(v6: bool) -> Seq<char> {
    join(if v6 { ip6_arpa() } else { in_addr_arpa() }, seq!['.'])
}

/// The leaves of the tree of the delegated networks of one family: the most specific blocks.
pub open spec fn reverse_leaves(files: Seq<RecordFileView>, v6: bool) -> Seq<PrefixView> {
    leaves(built(family_prefixes(delegated_networks(files), if v6 { 16 } else { 4 })))
}

/// The reverse zone of one family: an `NS` record at its origin for the primary name server,
/// then the records of the most specific delegated blocks of the family.
pub open spec fn reverse_zone(
    files: Seq<RecordFileView>,
    primary: Seq<char>,
    soa: RecordDataView,
    v6: bool,
) -> ZoneView {
    let origin = reverse_origin(v6);
    empty_zone(origin, soa).with_added(seq![record(origin, RecordDataView::NS(primary))]).with_added(
        leaves_records(delegated_networks(files), reverse_leaves(files, v6)),
    )
}

/// The address block of each network with the bits after the prefix set to zero.
fn normalized_blocks(nets: &Vec<ExtractedNetworkInfo>) -> (blocks: Vec<Prefix>)
    ensures
        blocks.len() == nets.len(),
        forall|j: int|
            0 <= j < nets.len() ==> (#[trigger] blocks@[j])@ == nets@[j]@.cidr.resized(
                nets@[j]@.cidr.len,
            ),
{
    let mut blocks: Vec<Prefix> = Vec::new();
    let mut j: usize = 0;
    while j < nets.len()
        invariant
            j <= nets.len(),
            blocks.len() == j,
            forall|k: int|
                0 <= k < j ==> (#[trigger] blocks@[k])@ == nets@[k]@.cidr.resized(
                    nets@[k]@.cidr.len,
                ),
        decreases nets.len() - j,
    {
        let cidr = &nets[j].cidr;
        let normal = cidr.with_prefix_len(cidr.prefix_len());
        blocks.push(normal.unwrap());
        j += 1;
    }
    blocks
}

/// The counter without a count.
pub open spec fn no_counts() -> ReverseRecordCounter {
    ReverseRecordCounter { ipv4_align: 0, ipv4_non_align: 0, ipv6_align: 0, ipv6_non_align: 0 }
}

/// The count of the most specific delegated blocks by kind: those of IPv4 on and off an octet
/// boundary, and those of IPv6 on and off a half-octet boundary.
pub open spec fn reverse_counter(files: Seq<RecordFileView>) -> ReverseRecordCounter {
    ReverseRecordCounter {
        ipv4_align: counted_all(no_counts(), reverse_leaves(files, false)).ipv4_align,
        ipv4_non_align: counted_all(no_counts(), reverse_leaves(files, false)).ipv4_non_align,
        ipv6_align: counted_all(no_counts(), reverse_leaves(files, true)).ipv6_align,
        ipv6_non_align: counted_all(no_counts(), reverse_leaves(files, true)).ipv6_non_align,
    }
}

/// The place of the network that speaks for the leaf, if there is one.
fn find_network(nets: &Vec<ExtractedNetworkInfo>, blocks: &Vec<Prefix>, leaf: &Prefix) -> (r: Option<
    usize,
>)
    requires
        blocks.len() == nets.len(),
        forall|j: int|
            0 <= j < nets.len() ==> (#[trigger] blocks@[j])@ == nets@[j]@.cidr.resized(
                nets@[j]@.cidr.len,
            ),
    ensures
        match network_of(network_views(nets@), leaf@) {
            Some(n) => r is Some && r.unwrap() < nets.len() && nets@[r.unwrap() as int]@ == n,
            None => r is None,
        },
{
    let ghost all = network_views(nets@);
    let mut j: usize = nets.len();
    assert(all.subrange(0, j as int) == all);
    while j > 0
        invariant
            j <= nets.len(),
            blocks.len() == nets.len(),
            forall|k: int|
                0 <= k < nets.len() ==> (#[trigger] blocks@[k])@ == nets@[k]@.cidr.resized(
                    nets@[k]@.cidr.len,
                ),
            all == network_views(nets@),
            network_of(all, leaf@) == network_of(all.subrange(0, j as int), leaf@),
        decreases j,
    {
        let ghost part = all.subrange(0, j as int);
        proof {
            assert(part.last() == nets@[j - 1]@);
            assert(part.drop_last() == all.subrange(0, j - 1));
        }
        if blocks[j - 1].equals(leaf) {
            return Some(j - 1);
        }
        j -= 1;
    }
    None
}

/// Adds the records of the leaves to the zone, and counts the leaves by kind.
fn add_leaves(
    zone: &mut DNSZone,
    nets: &Vec<ExtractedNetworkInfo>,
    found: &Vec<Prefix>,
) -> (counter: ReverseRecordCounter)
    ensures
        final(zone)@ == old(zone)@.with_added(
            leaves_records(network_views(nets@), prefix_views(found@)),
        ),
        counter == counted_all(
            ReverseRecordCounter {
                ipv4_align: 0,
                ipv4_non_align: 0,
                ipv6_align: 0,
                ipv6_non_align: 0,
            },
            prefix_views(found@),
        ),
{
    let ghost all = prefix_views(found@);
    let ghost start = zone@;
    let ghost views_of_nets = network_views(nets@);
    let ghost zero = ReverseRecordCounter {
        ipv4_align: 0,
        ipv4_non_align: 0,
        ipv6_align: 0,
        ipv6_non_align: 0,
    };
    let mut counter = ReverseRecordCounter {
        ipv4_align: 0,
        ipv4_non_align: 0,
        ipv6_align: 0,
        ipv6_non_align: 0,
    };
    let blocks = normalized_blocks(nets);
    let mut i: usize = 0;
    assert(all.subrange(0, 0) =~= Seq::<PrefixView>::empty());
    while i < found.len()
        invariant
            i <= found.len(),
            all == prefix_views(found@),
            views_of_nets == network_views(nets@),
            blocks.len() == nets.len(),
            forall|j: int|
                0 <= j < nets.len() ==> (#[trigger] blocks@[j])@ == nets@[j]@.cidr.resized(
                    nets@[j]@.cidr.len,
                ),
            zone@ == start.with_added(leaves_records(views_of_nets, all.subrange(0, i as int))),
            counter == counted_all(zero, all.subrange(0, i as int)),
            counter.ipv4_align <= i,
            counter.ipv4_non_align <= i,
            counter.ipv6_align <= i,
            counter.ipv6_non_align <= i,
        decreases found.len() - i,
    {
        let ghost done = all.subrange(0, i as int);
        let ghost next = all.subrange(0, i + 1);
        proof {
            assert(next.drop_last() == done);
            assert(next.last() == found@[i as int]@);
        }
        let leaf = &found[i];
        let mut one = ReverseRecordCounter {
            ipv4_align: 0,
            ipv4_non_align: 0,
            ipv6_align: 0,
            ipv6_non_align: 0,
        };
        match find_network(nets, &blocks, leaf) {
            Some(j) => {
                let net = &nets[j];
                let mut records = generate_reverse_records(
                    leaf,
                    net.name_servers.as_slice(),
                    &mut one,
                );
                let ds = generate_reverse_ds_record(leaf, net.ds_rdata.as_slice());
                append_records(&mut records, ds);
                proof {
                    lemma_add_all_concat(
                        start.records,
                        start.origin,
                        leaves_records(views_of_nets, done),
                        record_views(records@),
                    );
                }
                zone.add_records(records);
            },
            None => {
                proof {
                    assert(leaves_records(views_of_nets, next) =~= leaves_records(
                        views_of_nets,
                        done,
                    ));
                }
            },
        }
        let v4 = leaf.network().is_ipv4();
        let len: u8 = leaf.prefix_len();
        if v4 {
            if len % 8 == 0 {
                counter.ipv4_align = counter.ipv4_align + 1;
            } else {
                counter.ipv4_non_align = counter.ipv4_non_align + 1;
            }
        } else if len % 4 == 0 {
            counter.ipv6_align = counter.ipv6_align + 1;
        } else {
            counter.ipv6_non_align = counter.ipv6_non_align + 1;
        }
        i += 1;
    }
    assert(all.subrange(0, found.len() as int) == all);
    counter
}

/// The reverse zone of one family and the count of its leaves by kind.
fn build_reverse_zone(
    nets: &Vec<ExtractedNetworkInfo>,
    tree: &PrefixTree,
    v6: bool,
    dns_primary_master: &str,
    dns_responsible_person: &str,
    serial: u32,
) -> (r: (DNSZone, ReverseRecordCounter))
    ensures
        r.0@ == empty_zone(
            reverse_origin(v6),
            zone_soa(dns_primary_master@, dns_responsible_person@, serial),
        ).with_added(
            seq![record(reverse_origin(v6), RecordDataView::NS(dns_primary_master@))],
        ).with_added(leaves_records(network_views(nets@), leaves(tree@))),
        r.1 == counted_all(
            ReverseRecordCounter {
                ipv4_align: 0,
                ipv4_non_align: 0,
                ipv6_align: 0,
                ipv6_non_align: 0,
            },
            leaves(tree@),
        ),
{
    let mut ls: Vec<Vec<char>> = Vec::new();
    push_arpa(&mut ls, v6);
    proof {
        lemma_tails_plain();
        assert(views(ls@) =~= if v6 {
            ip6_arpa()
        } else {
            in_addr_arpa()
        });
        lemma_all_plain(views(ls@));
    }
    let origin = FQDNName::from_labels(&ls);
    let apex = DNSRecord {
        name: origin.clone(),
        class: DNSClass::IN,
        ttl: DEFAULT_TTL,
        data: DNSRecordData::NS(string_of(dns_primary_master)),
    };
    let mut zone = new_zone(
        origin,
        string_of(dns_primary_master),
        string_of(dns_responsible_person),
        serial,
    );
    let first: Vec<DNSRecord> = vec![apex];
    assert(record_views(first@) =~= seq![
        record(reverse_origin(v6), RecordDataView::NS(dns_primary_master@)),
    ]);
    zone.add_records(first);
    let found = tree.visit_leaf();
    let counter = add_leaves(&mut zone, nets, &found);
    (zone, counter)
}

/// The networks that the registry objects delegate, and the trees of their address blocks,
/// that of IPv4 first.
fn read_networks(record_files: &[RecordFile]) -> (r: (
    Vec<ExtractedNetworkInfo>,
    PrefixTree,
    PrefixTree,
))
    ensures
        network_views(r.0@) == delegated_networks(file_views(record_files@)),
        r.1@ == built(family_prefixes(delegated_networks(file_views(record_files@)), 4)),
        r.2@ == built(family_prefixes(delegated_networks(file_views(record_files@)), 16)),
{
    let ghost files = file_views(record_files@);
    let mut nets: Vec<ExtractedNetworkInfo> = Vec::new();
    let mut ipv4_tree = PrefixTree::new();
    let mut ipv6_tree = PrefixTree::new();
    let mut i: usize = 0;
    proof {
        assert(files.subrange(0, 0) =~= Seq::<RecordFileView>::empty());
        assert(network_views(nets@) =~= Seq::<NetworkInfoView>::empty());
    }
    while i < record_files.len()
        invariant
            i <= record_files.len(),
            files == file_views(record_files@),
            network_views(nets@) == delegated_networks(files.subrange(0, i as int)),
            ipv4_tree@ == built(family_prefixes(network_views(nets@), 4)),
            ipv6_tree@ == built(family_prefixes(network_views(nets@), 16)),
        decreases record_files.len() - i,
    {
        let ghost next = files.subrange(0, i + 1);
        let ghost before = network_views(nets@);
        proof {
            assert(next.drop_last() == files.subrange(0, i as int));
            assert(next.last() == record_files@[i as int]@);
        }
        match ExtractedNetworkInfo::try_from(&record_files[i]) {
            Ok(info) => {
                if info.name_servers.len() > 0 {
                    let cidr: Prefix = info.cidr;
                    let v4 = cidr.network().is_ipv4();
                    proof {
                        assert(name_server_views(info.name_servers@).len() > 0);
                        let after = before.push(info@);
                        assert(after.drop_last() == before);
                        assert(after.last() == info@);
                        assert(network_views(nets@.push(info)) =~= after);
                        let f4 = family_prefixes(before, 4);
                        let f6 = family_prefixes(before, 16);
                        assert(f4.push(cidr@).drop_last() == f4);
                        assert(f6.push(cidr@).drop_last() == f6);
                        assert(f4.push(cidr@).last() == cidr@);
                        assert(f6.push(cidr@).last() == cidr@);
                        assert(family_prefixes(after, 4) == if v4 {
                            f4.push(cidr@)
                        } else {
                            f4
                        });
                        assert(family_prefixes(after, 16) == if v4 {
                            f6
                        } else {
                            f6.push(cidr@)
                        });
                    }
                    if v4 {
                        ipv4_tree.insert(cidr);
                    } else {
                        ipv6_tree.insert(cidr);
                    }
                    nets.push(info);
                } else {
                    assert(name_server_views(info.name_servers@).len() == 0);
                }
            },
            Err(e) => {},
        }
        i += 1;
    }
    assert(files.subrange(0, record_files.len() as int) == files);
    (nets, ipv4_tree, ipv6_tree)
}

/// The warnings for the address blocks among the given ones that have no reverse name: one
/// for each of them, in order.
pub open spec fn unaligned_warnings(ls: Seq<PrefixView>) -> Seq<Seq<char>>
    decreases ls.len(),
{
    if ls.len() == 0 {
        Seq::empty()
    } else {
        let front = unaligned_warnings(ls.drop_last());
        if reverse_name(ls.last()) is None {
            front.push(
                "IPv6 CIDR not aligned with nibble boundaries is not supported: "@ + prefix_text(
                    ls.last(),
                ),
            )
        } else {
            front
        }
    }
}

/// The warnings for the most specific IPv6 blocks that are not delegated because their
/// prefixes end off a half-octet boundary: one for each of them, in the order of the leaves.
pub fn unaligned_block_texts(record_files: &[RecordFile]) -> (texts: Vec<String>)
    ensures
        string_views(texts@) == unaligned_warnings(
            reverse_leaves(file_views(record_files@), true),
        ),
{
    let (nets, ipv4_tree, ipv6_tree) = read_networks(record_files);
    let found = ipv6_tree.visit_leaf();
    let ghost all = prefix_views(found@);
    let mut texts: Vec<String> = Vec::new();
    let mut i: usize = 0;
    proof {
        assert(all.subrange(0, 0) =~= Seq::<PrefixView>::empty());
        assert(string_views(texts@) =~= Seq::<Seq<char>>::empty());
    }
    while i < found.len()
        invariant
            i <= found.len(),
            all == prefix_views(found@),
            string_views(texts@) == unaligned_warnings(all.subrange(0, i as int)),
        decreases found.len() - i,
    {
        let ghost next = all.subrange(0, i + 1);
        let ghost before = string_views(texts@);
        proof {
            assert(next.drop_last() == all.subrange(0, i as int));
            assert(next.last() == found@[i as int]@);
        }
        match generate_reverse_record_name(&found[i]) {
            Some(name) => {},
            None => {
                let mut msg: Vec<char> = str_chars(
                    "IPv6 CIDR not aligned with nibble boundaries is not supported: ",
                );
                append_chars(&mut msg, &found[i].to_chars());
                texts.push(string_from_chars(&msg));
                assert(string_views(texts@) =~= before.push(
                    "IPv6 CIDR not aligned with nibble boundaries is not supported: "@
                        + prefix_text(next.last()),
                ));
            },
        }
        i += 1;
    }
    assert(all.subrange(0, found.len() as int) == all);
    texts
}

/// The two reverse zones, `in-addr.arpa` first and `ip6.arpa` second, with the given serial
/// number at their heads, and the count of the most specific blocks by kind.
pub fn reverse_zones_counted_at(
    record_files: &[RecordFile],
    dns_primary_master: &str,
    dns_responsible_person: &str,
    serial: u32,
) -> (r: (Vec<DNSZone>, ReverseRecordCounter))
    ensures
        r.0.len() == 2,
        r.0@[0]@ == reverse_zone(
            file_views(record_files@),
            dns_primary_master@,
            zone_soa(dns_primary_master@, dns_responsible_person@, serial),
            false,
        ),
        r.0@[1]@ == reverse_zone(
            file_views(record_files@),
            dns_primary_master@,
            zone_soa(dns_primary_master@, dns_responsible_person@, serial),
            true,
        ),
        r.1 == reverse_counter(file_views(record_files@)),
{
    let (nets, ipv4_tree, ipv6_tree) = read_networks(record_files);
    let (ipv4_zone, c4) = build_reverse_zone(
        &nets,
        &ipv4_tree,
        false,
        dns_primary_master,
        dns_responsible_person,
        serial,
    );
    let (ipv6_zone, c6) = build_reverse_zone(
        &nets,
        &ipv6_tree,
        true,
        dns_primary_master,
        dns_responsible_person,
        serial,
    );
    let counter = ReverseRecordCounter {
        ipv4_align: c4.ipv4_align,
        ipv4_non_align: c4.ipv4_non_align,
        ipv6_align: c6.ipv6_align,
        ipv6_non_align: c6.ipv6_non_align,
    };
    let mut zones: Vec<DNSZone> = Vec::new();
    zones.push(ipv4_zone);
    zones.push(ipv6_zone);
    (zones, counter)
}

/// Whether the text `s` ends with the text `suffix`.
pub open spec fn ends_with(s: Seq<char>, suffix: Seq<char>) -> bool {
    suffix.len() <= s.len() && s.subrange(s.len() - suffix.len(), s.len() as int) == suffix
}

/// Whether the name lies below `registry-sync.dn42`, so that its labels write an address.
pub open spec fn is_registry_sync(name: Seq<char>) -> bool {
    ends_with(name, ".registry-sync.dn42"@)
}

/// The octets that the first four labels write in decimal, the fourth label first.
pub open spec fn ipv4_from_labels(ls: Seq<Seq<char>>) -> Option<Seq<u8>> {
    if ls.len() == 7 && (forall|i: int| 0 <= i < 4 ==> parse_unsigned(#[trigger] ls[i], 10, 255) is Some) {
        Some(Seq::new(4, |j: int| parse_unsigned(ls[3 - j], 10, 255).unwrap() as u8))
    } else {
        None
    }
}

/// The octets that the first 32 labels write, each label one half-octet in hexadecimal, the
/// 32nd label first.
pub open spec fn ipv6_from_labels(ls: Seq<Seq<char>>) -> Option<Seq<u8>> {
    if ls.len() == 35 && (forall|i: int| 0 <= i < 32 ==> parse_unsigned(#[trigger] ls[i], 16, 15) is Some) {
        Some(
            Seq::new(
                16,
                |j: int|
                    (parse_unsigned(ls[31 - 2 * j], 16, 15).unwrap() * 16 + parse_unsigned(
                        ls[30 - 2 * j],
                        16,
                        15,
                    ).unwrap()) as u8,
            ),
        )
    } else {
        None
    }
}

/// The address that the labels of a name below `registry-sync.dn42` write: the third label
/// from the end names the family, and the labels before it write the address backwards.
pub open spec fn registry_sync_address(name: Seq<char>) -> Option<Seq<u8>> {
    let ls = split(name, '.');
    if ls.len() < 4 {
        None
    } else if ls[ls.len() - 3] == "ipv4"@ {
        ipv4_from_labels(ls)
    } else if ls[ls.len() - 3] == "ipv6"@ {
        ipv6_from_labels(ls)
    } else {
        None
    }
}

/// Whether the name lies below `registry-sync.dn42`.
pub fn is_registry_sync_domain(domain: &FQDNName) -> (r: bool)
    ensures
        r == is_registry_sync(domain@),
{
    let name = domain.chars();
    let suffix = str_chars(".registry-sync.dn42");
    if suffix.len() > name.len() {
        return false;
    }
    let end = slice_chars(&name, name.len() - suffix.len(), name.len());
    same_chars(&end, &suffix)
}

/// What is wrong with the first of the labels, read from the label at place `count - 1` back
/// to the label at place 0, that writes no number of at most `max`.
pub open spec fn labels_number_fault(ls: Seq<Seq<char>>, count: int, radix: nat, max: nat) -> Option<
    NumberFault,
>
    decreases count,
{
    if count <= 0 {
        None
    } else {
        match number_fault(ls[count - 1], radix, max) {
            Some(f) => Some(f),
            None => labels_number_fault(ls, count - 1, radix, max),
        }
    }
}

/// What is wrong with labels that write no IPv4 address: they are not seven, or one of the
/// first four writes no octet. The message names the labels joined by dots.
pub open spec fn ipv4_labels_fault_text(ls: Seq<Seq<char>>) -> Seq<char> {
    if ls.len() != 7 {
        "Invalid IPv4 registry-sync domain labels: "@ + join(ls, seq!['.'])
            + ", should have exactly 7 labels: A.B.C.D.ipv4.registry-sync.dn42"@
    } else {
        match labels_number_fault(ls, 4, 10, 255) {
            Some(f) => "Failed to parse IPv4 octets from labels "@ + join(ls, seq!['.']) + ": "@
                + number_fault_text(f),
            None => Seq::empty(),
        }
    }
}

/// What is wrong with labels that write no IPv6 address: they are not 35, or one of the
/// first 32 writes no half-octet. The message names the labels joined by dots.
pub open spec fn ipv6_labels_fault_text(ls: Seq<Seq<char>>) -> Seq<char> {
    if ls.len() != 35 {
        "Invalid IPv6 registry-sync domain labels: "@ + join(ls, seq!['.'])
            + ", should have exactly 35 labels"@
    } else {
        match labels_number_fault(ls, 32, 16, 15) {
            Some(f) => "Failed to parse IPv6 nibbles from labels "@ + join(ls, seq!['.'])
                + ": "@ + number_fault_text(f),
            None => Seq::empty(),
        }
    }
}

/// What is wrong with a name whose labels write no address.
pub open spec fn registry_sync_fault_text(name: Seq<char>) -> Seq<char> {
    let ls = split(name, '.');
    if ls.len() < 4 {
        "Invalid registry-sync domain: "@ + name + ", should have at least 4 labels"@
    } else if ls[ls.len() - 3] == "ipv4"@ {
        ipv4_labels_fault_text(ls)
    } else if ls[ls.len() - 3] == "ipv6"@ {
        ipv6_labels_fault_text(ls)
    } else {
        "Invalid IP version label in domain: "@ + name
    }
}

/// The message that the labels, joined by dots, stand between the two texts.
fn message_with_labels(before: &str, ls: &Vec<Vec<char>>, after: &Vec<char>) -> (msg: String)
    ensures
        msg@ == before@ + join(views(ls@), seq!['.']) + after@,
{
    let sep: Vec<char> = vec!['.'];
    assert(sep@ =~= seq!['.']);
    let mut msg: Vec<char> = str_chars(before);
    append_chars(&mut msg, &join_chars(ls, &sep));
    append_chars(&mut msg, after);
    string_from_chars(&msg)
}

/// The message that a number could not be read from the labels.
fn number_message(before: &str, ls: &Vec<Vec<char>>, fault: NumberFault) -> (msg: String)
    ensures
        msg@ == before@ + join(views(ls@), seq!['.']) + ": "@ + number_fault_text(fault),
{
    let mut after: Vec<char> = str_chars(": ");
    append_chars(&mut after, &str_chars(fault.to_text().as_str()));
    let msg = message_with_labels(before, ls, &after);
    assert(msg@ =~= before@ + join(views(ls@), seq!['.']) + ": "@ + number_fault_text(fault));
    msg
}

/// The IPv4 address that the labels write, or what is wrong with them.
pub fn extract_ipv4_from_labels(ls: &Vec<Vec<char>>) -> (r: Result<IpAddr, String>)
    ensures
        match ipv4_from_labels(views(ls@)) {
            Some(o) => r is Ok && r.unwrap()@ == o,
            None => r is Err && r.unwrap_err()@ == ipv4_labels_fault_text(views(ls@)),
        },
{
    if ls.len() != 7 {
        return Err(
            message_with_labels(
                "Invalid IPv4 registry-sync domain labels: ",
                ls,
                &str_chars(", should have exactly 7 labels: A.B.C.D.ipv4.registry-sync.dn42"),
            ),
        );
    }
    let ghost all = views(ls@);
    let mut octets: [u8; 4] = [0u8;4];
    let mut left: usize = 4;
    while left > 0
        invariant
            left <= 4,
            ls.len() == 7,
            all == views(ls@),
            labels_number_fault(all, 4, 10, 255) == labels_number_fault(all, left as int, 10, 255),
            forall|k: int|
                left <= k < 4 ==> parse_unsigned(#[trigger] all[k], 10, 255) == Some(
                    octets@[3 - k] as nat,
                ),
        decreases left,
    {
        let at: usize = left - 1;
        assert(all[at as int] == ls@[at as int]@);
        match parse_unsigned_or_fault(&ls[at], 10, 255) {
            Ok(x) => {
                octets[3 - at] = x as u8;
            },
            Err(fault) => {
                assert(parse_unsigned(all[at as int], 10, 255) is None);
                return Err(number_message("Failed to parse IPv4 octets from labels ", ls, fault));
            },
        }
        left = at;
    }
    let a = Ipv4Addr::from_octets(octets);
    proof {
        let want = ipv4_from_labels(all).unwrap();
        assert forall|j: int| 0 <= j < 4 implies a@[j] == want[j] by {
            assert(parse_unsigned(all[3 - j], 10, 255) == Some(octets@[j] as nat));
        }
        assert(a@ =~= want);
    }
    Ok(IpAddr::V4(a))
}

/// The IPv6 address that the labels write, or what is wrong with them.
pub fn extract_ipv6_from_labels(ls: &Vec<Vec<char>>) -> (r: Result<IpAddr, String>)
    ensures
        match ipv6_from_labels(views(ls@)) {
            Some(o) => r is Ok && r.unwrap()@ == o,
            None => r is Err && r.unwrap_err()@ == ipv6_labels_fault_text(views(ls@)),
        },
{
    if ls.len() != 35 {
        return Err(
            message_with_labels(
                "Invalid IPv6 registry-sync domain labels: ",
                ls,
                &str_chars(", should have exactly 35 labels"),
            ),
        );
    }
    let ghost all = views(ls@);
    let mut nibbles: [u8; 32] = [0u8;32];
    let mut left: usize = 32;
    while left > 0
        invariant
            left <= 32,
            ls.len() == 35,
            all == views(ls@),
            labels_number_fault(all, 32, 16, 15) == labels_number_fault(all, left as int, 16, 15),
            forall|k: int|
                left <= k < 32 ==> parse_unsigned(#[trigger] all[k], 16, 15) == Some(
                    nibbles@[k] as nat,
                ),
        decreases left,
    {
        let at: usize = left - 1;
        assert(all[at as int] == ls@[at as int]@);
        match parse_unsigned_or_fault(&ls[at], 16, 15) {
            Ok(x) => {
                nibbles[at] = x as u8;
            },
            Err(fault) => {
                assert(parse_unsigned(all[at as int], 16, 15) is None);
                return Err(number_message("Failed to parse IPv6 nibbles from labels ", ls, fault));
            },
        }
        left = at;
    }
    let mut octets: [u8; 16] = [0u8;16];
    let mut j: usize = 0;
    while j < 16
        invariant
            j <= 16,
            ls.len() == 35,
            all == views(ls@),
            forall|k: int|
                0 <= k < 32 ==> parse_unsigned(#[trigger] all[k], 16, 15) == Some(
                    nibbles@[k] as nat,
                ),
            forall|k: int|
                0 <= k < j ==> octets@[k] == nibbles@[31 - 2 * k] * 16 + nibbles@[30 - 2 * k],
        decreases 16 - j,
    {
        let high: u8 = nibbles[31 - 2 * j];
        let low: u8 = nibbles[30 - 2 * j];
        proof {
            assert(parse_unsigned(all[31 - 2 * j], 16, 15) == Some(high as nat));
            assert(parse_unsigned(all[30 - 2 * j], 16, 15) == Some(low as nat));
        }
        octets[j] = high * 16 + low;
        j += 1;
    }
    let a = Ipv6Addr::from_octets(octets);
    proof {
        let want = ipv6_from_labels(all).unwrap();
        assert forall|k: int| 0 <= k < 16 implies a@[k] == want[k] by {
            assert(parse_unsigned(all[31 - 2 * k], 16, 15) == Some(nibbles@[31 - 2 * k] as nat));
            assert(parse_unsigned(all[30 - 2 * k], 16, 15) == Some(nibbles@[30 - 2 * k] as nat));
        }
        assert(a@ =~= want);
    }
    Ok(IpAddr::V6(a))
}

/// The address that the labels of the name write, or what is wrong with the name.
pub fn extract_ip_from_registry_sync_domain(domain: &FQDNName) -> (r: Result<IpAddr, String>)
    ensures
        match registry_sync_address(domain@) {
            Some(o) => r is Ok && r.unwrap()@ == o,
            None => r is Err && r.unwrap_err()@ == registry_sync_fault_text(domain@),
        },
{
    let name = domain.chars();
    let ls = split_chars(&name, '.');
    if ls.len() < 4 {
        let mut msg: Vec<char> = str_chars("Invalid registry-sync domain: ");
        append_chars(&mut msg, &name);
        append_chars(&mut msg, &str_chars(", should have at least 4 labels"));
        return Err(string_from_chars(&msg));
    }
    let family = &ls[ls.len() - 3];
    assert(family@ == views(ls@)[ls.len() - 3]);
    if same_chars(family, &str_chars("ipv4")) {
        extract_ipv4_from_labels(&ls)
    } else if same_chars(family, &str_chars("ipv6")) {
        extract_ipv6_from_labels(&ls)
    } else {
        let mut msg: Vec<char> = str_chars("Invalid IP version label in domain: ");
        append_chars(&mut msg, &name);
        Err(string_from_chars(&msg))
    }
}

/// The address records of the name servers of a domain whose names write their own
/// addresses: one for each such name server, at its name.
pub open spec fn sync_records_of(ns: Seq<NameServerView>) -> Seq<RecordView>
    decreases ns.len(),
{
    if ns.len() == 0 {
        Seq::empty()
    } else {
        let front = sync_records_of(ns.drop_last());
        let n = ns.last();
        if is_registry_sync(n.name) && registry_sync_address(n.name) is Some {
            front.push(record(n.name, address_data(registry_sync_address(n.name).unwrap())))
        } else {
            front
        }
    }
}

/// The address records of all such name servers of the domains that can be read, in the
/// order of the registry objects.
pub open spec fn registry_sync_records(files: Seq<RecordFileView>) -> Seq<RecordView>
    decreases files.len(),
{
    if files.len() == 0 {
        Seq::empty()
    } else {
        let front = registry_sync_records(files.drop_last());
        match extract_domain(files.last()) {
            Some(d) => front + sync_records_of(d.name_servers),
            None => front,
        }
    }
}

/// The address records of the name servers whose names write their own addresses.
pub fn generate_registry_sync_records(record_files: &[RecordFile]) -> (r: Vec<DNSRecord>)
    ensures
        record_views(r@) == registry_sync_records(file_views(record_files@)),
{
    let ghost files = file_views(record_files@);
    let mut resolved: Vec<DNSRecord> = Vec::new();
    let mut i: usize = 0;
    proof {
        assert(files.subrange(0, 0) =~= Seq::<RecordFileView>::empty());
        assert(record_views(resolved@) =~= Seq::<RecordView>::empty());
    }
    while i < record_files.len()
        invariant
            i <= record_files.len(),
            files == file_views(record_files@),
            record_views(resolved@) == registry_sync_records(files.subrange(0, i as int)),
        decreases record_files.len() - i,
    {
        let ghost next = files.subrange(0, i + 1);
        let ghost front = record_views(resolved@);
        proof {
            assert(next.drop_last() == files.subrange(0, i as int));
            assert(next.last() == record_files@[i as int]@);
        }
        match ExtractedDomainInfo::try_from(&record_files[i]) {
            Ok(info) => {
                let ghost ns = name_server_views(info.name_servers@);
                let mut j: usize = 0;
                proof {
                    assert(ns.subrange(0, 0) =~= Seq::<NameServerView>::empty());
                    assert(front + sync_records_of(ns.subrange(0, 0)) =~= front);
                }
                while j < info.name_servers.len()
                    invariant
                        j <= info.name_servers.len(),
                        ns == name_server_views(info.name_servers@),
                        record_views(resolved@) == front + sync_records_of(ns.subrange(0, j as int)),
                    decreases info.name_servers.len() - j,
                {
                    let ghost part = ns.subrange(0, j + 1);
                    let ghost so_far = record_views(resolved@);
                    proof {
                        assert(part.drop_last() == ns.subrange(0, j as int));
                        assert(part.last() == info.name_servers@[j as int]@);
                    }
                    let name = &info.name_servers[j].name_server;
                    if is_registry_sync_domain(name) {
                        match extract_ip_from_registry_sync_domain(name) {
                            Ok(ip) => {
                                resolved.push(
                                    DNSRecord {
                                        name: name.clone(),
                                        class: DNSClass::IN,
                                        ttl: DEFAULT_TTL,
                                        data: match ip {
                                            IpAddr::V4(a) => DNSRecordData::A(a),
                                            IpAddr::V6(a) => DNSRecordData::AAAA(a),
                                        },
                                    },
                                );
                                proof {
                                    let rec = record(name@, address_data(ip@));
                                    assert(record_views(resolved@) =~= so_far.push(rec));
                                    assert(front + sync_records_of(part) =~= so_far.push(rec));
                                }
                            },
                            Err(e) => {},
                        }
                    }
                    j += 1;
                }
                assert(ns.subrange(0, info.name_servers.len() as int) == ns);
            },
            Err(e) => {},
        }
        i += 1;
    }
    assert(files.subrange(0, record_files.len() as int) == files);
    resolved
}

/// The records of a delegation of `domain` to one name server: the `NS` record at the
/// domain and, where the address of the server is known, a glue record at the name of the
/// server.
pub open spec fn forward_pair(domain: Seq<char>, n: NameServerView) -> Seq<RecordView> {
    seq![record(domain, RecordDataView::NS(n.name))] + match n.ip {
        Some(o) => seq![record(n.name, address_data(o))],
        None => Seq::empty(),
    }
}

/// The records of a delegation of `domain` to the name servers, server by server.
pub open spec fn forward_delegation(domain: Seq<char>, ns: Seq<NameServerView>) -> Seq<RecordView>
    decreases ns.len(),
{
    if ns.len() == 0 {
        Seq::empty()
    } else {
        forward_delegation(domain, ns.drop_last()) + forward_pair(domain, ns.last())
    }
}

/// The `DS` records of a domain: one at the domain for each of the data.
pub open spec fn domain_ds(d: DomainInfoView) -> Seq<RecordView> {
    Seq::new(d.ds_rdata.len(), |i: int| record(d.domain, RecordDataView::DS(d.ds_rdata[i])))
}

/// The records that a domain offers to the zone of its last label: its delegation and, unless
/// the domain is that zone itself, its `DS` records.
pub open spec fn domain_records(d: DomainInfoView) -> Seq<RecordView> {
    forward_delegation(d.domain, d.name_servers) + if d.domain == d.tld {
        Seq::empty()
    } else {
        domain_ds(d)
    }
}

/// The place of the first zone with the given origin, or the number of zones where there is
/// none.
pub open spec fn zone_index(zones: Seq<ZoneView>, origin: Seq<char>) -> int
    decreases zones.len(),
{
    if zones.len() == 0 {
        0
    } else if zones[0].origin == origin {
        0
    } else {
        1 + zone_index(zones.drop_first(), origin)
    }
}

/// The zones after one more registry object was read: an object that says nothing of a
/// domain changes nothing; otherwise the zone of the last label of the domain, made new where
/// it is missing, takes the records of the domain.
pub open spec fn forward_step(zones: Seq<ZoneView>, file: RecordFileView, soa: RecordDataView) -> Seq<
    ZoneView,
> {
    match extract_domain(file) {
        None => zones,
        Some(d) => {
            let i = zone_index(zones, d.tld);
            let all = if i < zones.len() {
                zones
            } else {
                zones.push(empty_zone(d.tld, soa))
            };
            all.update(i, all[i].with_added(domain_records(d)))
        },
    }
}

/// The zones after the registry objects were read in order.
pub open spec fn forward_fold(files: Seq<RecordFileView>, soa: RecordDataView) -> Seq<ZoneView>
    decreases files.len(),
{
    if files.len() == 0 {
        Seq::empty()
    } else {
        forward_step(forward_fold(files.drop_last(), soa), files.last(), soa)
    }
}

/// The forward zones: one for each last label of a domain, in the order in which the labels
/// first occur, each with the records of its domains; the zone `dn42`, where there is one,
/// also takes the address records of the name servers whose names write their addresses.
pub open spec fn forward_zones(files: Seq<RecordFileView>, soa: RecordDataView) -> Seq<ZoneView> {
    let zones = forward_fold(files, soa);
    let i = zone_index(zones, seq!['d', 'n', '4', '2']);
    if i < zones.len() {
        zones.update(i, zones[i].with_added(registry_sync_records(files)))
    } else {
        zones
    }
}

proof fn lemma_zone_index(zones: Seq<ZoneView>, origin: Seq<char>, i: int)
    requires
        0 <= i <= zones.len(),
        forall|k: int| 0 <= k < i ==> zones[k].origin != origin,
        i < zones.len() ==> zones[i].origin == origin,
    ensures
        zone_index(zones, origin) == i,
    decreases zones.len(),
{
    if zones.len() > 0 && i > 0 {
        let rest = zones.drop_first();
        assert forall|k: int| 0 <= k < i - 1 implies rest[k].origin != origin by {
            assert(rest[k] == zones[k + 1]);
        }
        lemma_zone_index(rest, origin, i - 1);
    }
}

/// The place of the first zone with the given origin, or the number of zones.
fn find_zone(zones: &Vec<DNSZone>, origin: &FQDNName) -> (i: usize)
    ensures
        i == zone_index(zone_views(zones@), origin@),
        i <= zones.len(),
{
    let mut i: usize = 0;
    while i < zones.len()
        invariant
            i <= zones.len(),
            forall|k: int| 0 <= k < i ==> zones@[k]@.origin != origin@,
        decreases zones.len() - i,
    {
        if zones[i].origin().equals(origin) {
            proof {
                lemma_zone_index(zone_views(zones@), origin@, i as int);
            }
            return i;
        }
        i += 1;
    }
    proof {
        lemma_zone_index(zone_views(zones@), origin@, i as int);
    }
    i
}

/// The records that the domain offers to the zone of its last label.
fn domain_records_for(info: &ExtractedDomainInfo) -> (r: Vec<DNSRecord>)
    ensures
        record_views(r@) == domain_records(info@),
{
    let ghost d = info@;
    let ghost ns = d.name_servers;
    let mut records: Vec<DNSRecord> = Vec::new();
    let mut i: usize = 0;
    proof {
        assert(ns.subrange(0, 0) =~= Seq::<NameServerView>::empty());
        assert(record_views(records@) =~= Seq::<RecordView>::empty());
    }
    while i < info.name_servers.len()
        invariant
            i <= info.name_servers.len(),
            d == info@,
            ns == name_server_views(info.name_servers@),
            record_views(records@) == forward_delegation(d.domain, ns.subrange(0, i as int)),
        decreases info.name_servers.len() - i,
    {
        let ghost before = record_views(records@);
        let ghost next = ns.subrange(0, i + 1);
        proof {
            assert(next.drop_last() == ns.subrange(0, i as int));
            assert(next.last() == info.name_servers@[i as int]@);
        }
        let server = &info.name_servers[i];
        records.push(
            DNSRecord {
                name: info.domain.clone(),
                class: DNSClass::IN,
                ttl: DEFAULT_TTL,
                data: DNSRecordData::NS(string_of(server.name_server.as_str())),
            },
        );
        match &server.name_server_ip {
            Some(ip) => {
                records.push(
                    DNSRecord {
                        name: server.name_server.clone(),
                        class: DNSClass::IN,
                        ttl: DEFAULT_TTL,
                        data: match ip {
                            IpAddr::V4(a) => DNSRecordData::A(*a),
                            IpAddr::V6(a) => DNSRecordData::AAAA(*a),
                        },
                    },
                );
            },
            None => {},
        }
        assert(record_views(records@) =~= before + forward_pair(d.domain, server@));
        i += 1;
    }
    assert(ns.subrange(0, info.name_servers.len() as int) == ns);
    let apex = same_chars(&info.domain.chars(), &str_chars(info.tld.as_str()));
    if !apex {
        let ghost before = record_views(records@);
        let mut j: usize = 0;
        while j < info.ds_rdata.len()
            invariant
                j <= info.ds_rdata.len(),
                d == info@,
                record_views(records@) == before + domain_ds(d).subrange(0, j as int),
            decreases info.ds_rdata.len() - j,
        {
            let ghost so_far = record_views(records@);
            records.push(
                DNSRecord {
                    name: info.domain.clone(),
                    class: DNSClass::IN,
                    ttl: DEFAULT_TTL,
                    data: DNSRecordData::DS(info.ds_rdata[j].clone()),
                },
            );
            proof {
                assert(record_views(records@) =~= so_far.push(domain_ds(d)[j as int]));
                assert(domain_ds(d).subrange(0, j + 1) =~= domain_ds(d).subrange(0, j as int).push(
                    domain_ds(d)[j as int],
                ));
            }
            j += 1;
        }
        assert(domain_ds(d).subrange(0, info.ds_rdata.len() as int) == domain_ds(d));
    } else {
        assert(record_views(records@) + Seq::<RecordView>::empty() =~= record_views(records@));
    }
    records
}

/// The forward zones of the registry objects, with the given serial number at their heads.
pub fn forward_zones_at(
    record_files: &[RecordFile],
    dns_primary_master: &str,
    dns_responsible_person: &str,
    serial: u32,
) -> (zones: Vec<DNSZone>)
    ensures
        zone_views(zones@) == forward_zones(
            file_views(record_files@),
            zone_soa(dns_primary_master@, dns_responsible_person@, serial),
        ),
{
    let ghost files = file_views(record_files@);
    let ghost soa = zone_soa(dns_primary_master@, dns_responsible_person@, serial);
    let mut zones: Vec<DNSZone> = Vec::new();
    let mut i: usize = 0;
    proof {
        assert(files.subrange(0, 0) =~= Seq::<RecordFileView>::empty());
        assert(zone_views(zones@) =~= Seq::<ZoneView>::empty());
    }
    while i < record_files.len()
        invariant
            i <= record_files.len(),
            files == file_views(record_files@),
            soa == zone_soa(dns_primary_master@, dns_responsible_person@, serial),
            zone_views(zones@) == forward_fold(files.subrange(0, i as int), soa),
        decreases record_files.len() - i,
    {
        let ghost next = files.subrange(0, i + 1);
        let ghost before = zone_views(zones@);
        proof {
            assert(next.drop_last() == files.subrange(0, i as int));
            assert(next.last() == record_files@[i as int]@);
        }
        match ExtractedDomainInfo::try_from(&record_files[i]) {
            Ok(info) => {
                let origin = info.domain.tld_name();
                let at = find_zone(&zones, &origin);
                if at == zones.len() {
                    let zone = new_zone(
                        origin,
                        string_of(dns_primary_master),
                        string_of(dns_responsible_person),
                        serial,
                    );
                    zones.push(zone);
                    assert(zone_views(zones@) =~= before.push(empty_zone(info@.tld, soa)));
                }
                let ghost all = zone_views(zones@);
                let records = domain_records_for(&info);
                zones[at].add_records(records);
                assert(zone_views(zones@) =~= all.update(
                    at as int,
                    all[at as int].with_added(domain_records(info@)),
                ));
            },
            Err(e) => {},
        }
        i += 1;
    }
    assert(files.subrange(0, record_files.len() as int) == files);
    let label: Vec<char> = vec!['d', 'n', '4', '2'];
    let parts: Vec<Vec<char>> = vec![label];
    proof {
        let l = seq!['d', 'n', '4', '2'];
        assert(parts@[0]@ =~= l);
        assert(views(parts@) =~= seq![l]);
        assert(plain_label(l));
        lemma_plain_label(l);
        assert(join(seq![l], seq!['.']) == l);
    }
    let dn42 = FQDNName::from_labels(&parts);
    let at = find_zone(&zones, &dn42);
    if at < zones.len() {
        let ghost all = zone_views(zones@);
        let records = generate_registry_sync_records(record_files);
        zones[at].add_records(records);
        assert(zone_views(zones@) =~= all.update(
            at as int,
            all[at as int].with_added(registry_sync_records(files)),
        ));
    }
    zones
}

/// The two reverse zones, `in-addr.arpa` first and `ip6.arpa` second, with the given serial
/// number at their heads.
pub fn reverse_zones_at(
    record_files: &[RecordFile],
    dns_primary_master: &str,
    dns_responsible_person: &str,
    serial: u32,
) -> (zones: Vec<DNSZone>)
    ensures
        zones.len() == 2,
        zones@[0]@ == reverse_zone(
            file_views(record_files@),
            dns_primary_master@,
            zone_soa(dns_primary_master@, dns_responsible_person@, serial),
            false,
        ),
        zones@[1]@ == reverse_zone(
            file_views(record_files@),
            dns_primary_master@,
            zone_soa(dns_primary_master@, dns_responsible_person@, serial),
            true,
        ),
{
    let (zones, counter) = reverse_zones_counted_at(
        record_files,
        dns_primary_master,
        dns_responsible_person,
        serial,
    );
    zones
}

/// Whether no record of the list is a `DS` record at the given name.
pub open spec fn no_ds_at(records: Seq<RecordView>, name: Seq<char>) -> bool {
    forall|j: int| 0 <= j < records.len() ==> !((#[trigger] records[j]).data is DS && records[j].name == name)
}

/// Whether no record of the list is a `DS` record at all.
pub open spec fn no_ds(records: Seq<RecordView>) -> bool {
    forall|j: int| 0 <= j < records.len() ==> !((#[trigger] records[j]).data is DS)
}

proof fn lemma_add_all_no_ds_at(
    records: Seq<RecordView>,
    origin: Seq<char>,
    more: Seq<RecordView>,
    name: Seq<char>,
)
    requires
        no_ds_at(records, name),
        no_ds_at(more, name),
    ensures
        no_ds_at(add_all(records, origin, more), name),
    decreases more.len(),
{
    if more.len() > 0 {
        let front = more.drop_last();
        assert(no_ds_at(front, name)) by {
            assert forall|j: int| 0 <= j < front.len() implies !((#[trigger] front[j]).data is DS
                && front[j].name == name) by {
                assert(front[j] == more[j]);
            }
        }
        lemma_add_all_no_ds_at(records, origin, front, name);
        let sofar = add_all(records, origin, front);
        let out = add_all(records, origin, more);
        assert forall|j: int| 0 <= j < out.len() implies !((#[trigger] out[j]).data is DS
            && out[j].name == name) by {
            if j < sofar.len() {
                assert(out[j] == sofar[j]);
            } else {
                assert(out[j] == more[more.len() - 1]);
            }
        }
    }
}

proof fn lemma_forward_delegation_no_ds(domain: Seq<char>, ns: Seq<NameServerView>)
    ensures
        no_ds(forward_delegation(domain, ns)),
    decreases ns.len(),
{
    if ns.len() > 0 {
        lemma_forward_delegation_no_ds(domain, ns.drop_last());
        let front = forward_delegation(domain, ns.drop_last());
        let pair = forward_pair(domain, ns.last());
        let out = forward_delegation(domain, ns);
        assert forall|j: int| 0 <= j < out.len() implies !((#[trigger] out[j]).data is DS) by {
            if j < front.len() {
                assert(out[j] == front[j]);
            } else {
                assert(out[j] == pair[j - front.len()]);
            }
        }
    }
}

proof fn lemma_sync_records_no_ds(files: Seq<RecordFileView>)
    ensures
        no_ds(registry_sync_records(files)),
    decreases files.len(),
{
    if files.len() > 0 {
        lemma_sync_records_no_ds(files.drop_last());
        let front = registry_sync_records(files.drop_last());
        match extract_domain(files.last()) {
            Some(d) => {
                lemma_sync_of_no_ds(d.name_servers);
                let more = sync_records_of(d.name_servers);
                let out = registry_sync_records(files);
                assert forall|j: int| 0 <= j < out.len() implies !((#[trigger] out[j]).data is DS) by {
                    if j < front.len() {
                        assert(out[j] == front[j]);
                    } else {
                        assert(out[j] == more[j - front.len()]);
                    }
                }
            },
            None => {},
        }
    }
}

proof fn lemma_sync_of_no_ds(ns: Seq<NameServerView>)
    ensures
        no_ds(sync_records_of(ns)),
    decreases ns.len(),
{
    if ns.len() > 0 {
        lemma_sync_of_no_ds(ns.drop_last());
        let front = sync_records_of(ns.drop_last());
        let out = sync_records_of(ns);
        assert forall|j: int| 0 <= j < out.len() implies !((#[trigger] out[j]).data is DS) by {
            if j < front.len() {
                assert(out[j] == front[j]);
            }
        }
    }
}

proof fn lemma_zone_index_bounds(zones: Seq<ZoneView>, origin: Seq<char>)
    ensures
        0 <= zone_index(zones, origin) <= zones.len(),
        zone_index(zones, origin) < zones.len() ==> zones[zone_index(zones, origin)].origin
            == origin,
    decreases zones.len(),
{
    if zones.len() > 0 && zones[0].origin != origin {
        lemma_zone_index_bounds(zones.drop_first(), origin);
    }
}

/// Whether no zone of the list has a `DS` record at its own origin.
pub open spec fn no_ds_at_apex(zones: Seq<ZoneView>) -> bool {
    forall|i: int| 0 <= i < zones.len() ==> no_ds_at((#[trigger] zones[i]).records, zones[i].origin)
}

proof fn lemma_forward_fold_no_ds_at_apex(files: Seq<RecordFileView>, soa: RecordDataView)
    ensures
        no_ds_at_apex(forward_fold(files, soa)),
    decreases files.len(),
{
    if files.len() > 0 {
        lemma_forward_fold_no_ds_at_apex(files.drop_last(), soa);
        let zones = forward_fold(files.drop_last(), soa);
        match extract_domain(files.last()) {
            None => {},
            Some(d) => {
                lemma_zone_index_bounds(zones, d.tld);
                let i = zone_index(zones, d.tld);
                let all = if i < zones.len() {
                    zones
                } else {
                    zones.push(empty_zone(d.tld, soa))
                };
                let more = domain_records(d);
                lemma_forward_delegation_no_ds(d.domain, d.name_servers);
                let del = forward_delegation(d.domain, d.name_servers);
                assert(no_ds_at(more, d.tld)) by {
                    assert forall|j: int| 0 <= j < more.len() implies !((#[trigger] more[j]).data is DS
                        && more[j].name == d.tld) by {
                        if j < del.len() {
                            assert(more[j] == del[j]);
                        } else {
                            assert(d.domain != d.tld);
                            assert(more[j] == domain_ds(d)[j - del.len()]);
                        }
                    }
                }
                assert(all[i].origin == d.tld);
                assert(no_ds_at(all[i].records, d.tld)) by {
                    if i < zones.len() {
                        assert(no_ds_at(zones[i].records, zones[i].origin));
                    }
                }
                lemma_add_all_no_ds_at(all[i].records, all[i].origin, more, d.tld);
                let out = forward_fold(files, soa);
                assert(out == all.update(i, all[i].with_added(more)));
                assert forall|k: int| 0 <= k < out.len() implies no_ds_at(
                    (#[trigger] out[k]).records,
                    out[k].origin,
                ) by {
                    if k != i {
                        assert(out[k] == zones[k]);
                        assert(no_ds_at(zones[k].records, zones[k].origin));
                    }
                }
            },
        }
    }
}

/// No forward zone has a `DS` record at its own origin: the `ds-rdata` of the domain that is
/// the zone itself is dropped.
pub proof fn law_no_ds_at_apex(files: Seq<RecordFileView>, soa: RecordDataView)
    ensures
        no_ds_at_apex(forward_zones(files, soa)),
{
    lemma_forward_fold_no_ds_at_apex(files, soa);
    let zones = forward_fold(files, soa);
    let dn42 = seq!['d', 'n', '4', '2'];
    lemma_zone_index_bounds(zones, dn42);
    let i = zone_index(zones, dn42);
    if i < zones.len() {
        let more = registry_sync_records(files);
        lemma_sync_records_no_ds(files);
        assert(no_ds_at(more, zones[i].origin)) by {
            assert forall|j: int| 0 <= j < more.len() implies !((#[trigger] more[j]).data is DS
                && more[j].name == zones[i].origin) by {}
        }
        assert(no_ds_at(zones[i].records, zones[i].origin));
        lemma_add_all_no_ds_at(zones[i].records, zones[i].origin, more, zones[i].origin);
        let out = forward_zones(files, soa);
        assert forall|k: int| 0 <= k < out.len() implies no_ds_at(
            (#[trigger] out[k]).records,
            out[k].origin,
        ) by {
            if k != i {
                assert(out[k] == zones[k]);
                assert(no_ds_at(zones[k].records, zones[k].origin));
            }
        }
    }
}

/// The labels of the name that writes the IPv4 address `d.c.b.a` below `registry-sync.dn42`.
pub open spec fn registry_sync_labels_v4(a: u8, b: u8, c: u8, d: u8) -> Seq<Seq<char>> {
    seq![
        decimal(a as nat),
        decimal(b as nat),
        decimal(c as nat),
        decimal(d as nat),
        seq!['i', 'p', 'v', '4'],
        seq!['r', 'e', 'g', 'i', 's', 't', 'r', 'y', '-', 's', 'y', 'n', 'c'],
        seq!['d', 'n', '4', '2'],
    ]
}

/// A name server called `a.b.c.d.ipv4.registry-sync.dn42` is taken for one whose name writes
/// its address, and the address is `d.c.b.a`.
pub proof fn law_registry_sync_ipv4(a: u8, b: u8, c: u8, d: u8)
    ensures
        is_registry_sync(join(registry_sync_labels_v4(a, b, c, d), seq!['.'])),
        registry_sync_address(join(registry_sync_labels_v4(a, b, c, d), seq!['.'])) == Some(
            seq![d, c, b, a],
        ),
{
    let ls = registry_sync_labels_v4(a, b, c, d);
    let name = join(ls, seq!['.']);
    lemma_decimal_value(a as nat);
    lemma_decimal_value(b as nat);
    lemma_decimal_value(c as nat);
    lemma_decimal_value(d as nat);
    let l4 = seq!['i', 'p', 'v', '4'];
    let l5 = seq!['r', 'e', 'g', 'i', 's', 't', 'r', 'y', '-', 's', 'y', 'n', 'c'];
    let l6 = seq!['d', 'n', '4', '2'];
    assert forall|i: int| 0 <= i < ls.len() implies free_of(#[trigger] ls[i], '.') by {
        if i == 4 {
            assert(ls[i] == l4);
        } else if i == 5 {
            assert(ls[i] == l5);
        } else if i == 6 {
            assert(ls[i] == l6);
        }
    }
    lemma_split_join(ls, '.');
    reveal_strlit("ipv4");
    reveal_strlit(".registry-sync.dn42");
    assert(ls[4] =~= "ipv4"@);
    assert(ipv4_from_labels(ls) is Some) by {
        assert forall|i: int| 0 <= i < 4 implies parse_unsigned(#[trigger] ls[i], 10, 255) is Some by {
            assert(i == 0 || i == 1 || i == 2 || i == 3);
        }
    }
    assert(ipv4_from_labels(ls).unwrap() =~= seq![d, c, b, a]);
    // The name ends with the last two labels, each behind a dot.
    let s6 = ls.drop_last();
    let s5 = s6.drop_last();
    assert(s6.last() == l5);
    assert(name == join(s6, seq!['.']) + seq!['.'] + l6);
    assert(join(s6, seq!['.']) == join(s5, seq!['.']) + seq!['.'] + l5);
    let suffix = ".registry-sync.dn42"@;
    assert(suffix =~= seq!['.'] + l5 + seq!['.'] + l6);
    assert(name.subrange(name.len() - suffix.len(), name.len() as int) =~= suffix);
}

/// The forward zones of the registry objects, with the serial number of the time of the call
/// at their heads. Whatever the clock says, the zones are those of `forward_zones` for some
/// serial number.
pub fn get_parsed_ns_records(
    record_files: &[RecordFile],
    dns_primary_master: &str,
    dns_responsible_person: &str,
) -> (zones: Vec<DNSZone>)
    ensures
        exists|serial: u32|
            zone_views(zones@) == forward_zones(
                file_views(record_files@),
                #[trigger] zone_soa(dns_primary_master@, dns_responsible_person@, serial),
            ),
{
    let serial = current_serial();
    forward_zones_at(record_files, dns_primary_master, dns_responsible_person, serial)
}

/// The two reverse zones, `in-addr.arpa` first and `ip6.arpa` second, with the serial number
/// of the time of the call at their heads. Whatever the clock says, the zones are those of
/// `reverse_zone` for some serial number.
pub fn generate_reverse_zones(
    record_files: &[RecordFile],
    dns_primary_master: &str,
    dns_responsible_person: &str,
) -> (zones: Vec<DNSZone>)
    ensures
        zones.len() == 2,
        exists|serial: u32|
            {
                &&& zones@[0]@ == reverse_zone(
                    file_views(record_files@),
                    dns_primary_master@,
                    #[trigger] zone_soa(dns_primary_master@, dns_responsible_person@, serial),
                    false,
                )
                &&& zones@[1]@ == reverse_zone(
                    file_views(record_files@),
                    dns_primary_master@,
                    zone_soa(dns_primary_master@, dns_responsible_person@, serial),
                    true,
                )
            },
{
    let serial = current_serial();
    reverse_zones_at(record_files, dns_primary_master, dns_responsible_person, serial)
}


/// What is wrong with the registry objects that say nothing of a domain, object by object.
pub open spec fn domain_faults(files: Seq<RecordFileView>) -> Seq<Seq<char>>
    decreases files.len(),
{
    if files.len() == 0 {
        Seq::empty()
    } else {
        let front = domain_faults(files.drop_last());
        if extract_domain(files.last()) is None {
            front.push(domain_fault_text(files.last()))
        } else {
            front
        }
    }
}

/// What is wrong with the registry objects that say nothing of a network, object by object.
pub open spec fn network_faults(files: Seq<RecordFileView>) -> Seq<Seq<char>>
    decreases files.len(),
{
    if files.len() == 0 {
        Seq::empty()
    } else {
        let front = network_faults(files.drop_last());
        if extract_network(files.last()) is None {
            front.push(network_fault_text(files.last()))
        } else {
            front
        }
    }
}

/// What is wrong with those of the name servers that lie below `registry-sync.dn42` and
/// whose names write no address, server by server.
pub open spec fn sync_faults_of(ns: Seq<NameServerView>) -> Seq<Seq<char>>
    decreases ns.len(),
{
    if ns.len() == 0 {
        Seq::empty()
    } else {
        let front = sync_faults_of(ns.drop_last());
        let n = ns.last();
        if is_registry_sync(n.name) && registry_sync_address(n.name) is None {
            front.push(registry_sync_fault_text(n.name))
        } else {
            front
        }
    }
}

/// What is wrong with such name servers of the domains that can be read, object by object.
pub open spec fn registry_sync_faults(files: Seq<RecordFileView>) -> Seq<Seq<char>>
    decreases files.len(),
{
    if files.len() == 0 {
        Seq::empty()
    } else {
        let front = registry_sync_faults(files.drop_last());
        match extract_domain(files.last()) {
            Some(d) => front + sync_faults_of(d.name_servers),
            None => front,
        }
    }
}

/// What is wrong with the registry objects that say nothing of a domain: one message for
/// each of them, in order. These are the objects that the forward zones leave out.
pub fn domain_fault_texts(record_files: &[RecordFile]) -> (texts: Vec<String>)
    ensures
        string_views(texts@) == domain_faults(file_views(record_files@)),
{
    let ghost files = file_views(record_files@);
    let mut texts: Vec<String> = Vec::new();
    let mut i: usize = 0;
    proof {
        assert(files.subrange(0, 0) =~= Seq::<RecordFileView>::empty());
        assert(string_views(texts@) =~= Seq::<Seq<char>>::empty());
    }
    while i < record_files.len()
        invariant
            i <= record_files.len(),
            files == file_views(record_files@),
            string_views(texts@) == domain_faults(files.subrange(0, i as int)),
        decreases record_files.len() - i,
    {
        let ghost next = files.subrange(0, i + 1);
        let ghost before = string_views(texts@);
        proof {
            assert(next.drop_last() == files.subrange(0, i as int));
            assert(next.last() == record_files@[i as int]@);
        }
        match ExtractedDomainInfo::try_from(&record_files[i]) {
            Ok(info) => {},
            Err(e) => {
                texts.push(e);
                assert(string_views(texts@) =~= before.push(domain_fault_text(next.last())));
            },
        }
        i += 1;
    }
    assert(files.subrange(0, record_files.len() as int) == files);
    texts
}

/// What is wrong with the registry objects that say nothing of a network: one message for
/// each of them, in order. These are the objects that the reverse zones leave out.
pub fn network_fault_texts(record_files: &[RecordFile]) -> (texts: Vec<String>)
    ensures
        string_views(texts@) == network_faults(file_views(record_files@)),
{
    let ghost files = file_views(record_files@);
    let mut texts: Vec<String> = Vec::new();
    let mut i: usize = 0;
    proof {
        assert(files.subrange(0, 0) =~= Seq::<RecordFileView>::empty());
        assert(string_views(texts@) =~= Seq::<Seq<char>>::empty());
    }
    while i < record_files.len()
        invariant
            i <= record_files.len(),
            files == file_views(record_files@),
            string_views(texts@) == network_faults(files.subrange(0, i as int)),
        decreases record_files.len() - i,
    {
        let ghost next = files.subrange(0, i + 1);
        let ghost before = string_views(texts@);
        proof {
            assert(next.drop_last() == files.subrange(0, i as int));
            assert(next.last() == record_files@[i as int]@);
        }
        match ExtractedNetworkInfo::try_from(&record_files[i]) {
            Ok(info) => {},
            Err(e) => {
                texts.push(e);
                assert(string_views(texts@) =~= before.push(network_fault_text(next.last())));
            },
        }
        i += 1;
    }
    assert(files.subrange(0, record_files.len() as int) == files);
    texts
}

/// What is wrong with the name servers below `registry-sync.dn42` whose names write no
/// address: one message for each of them, in order. These are the name servers that get no
/// address record.
pub fn registry_sync_fault_texts(record_files: &[RecordFile]) -> (texts: Vec<String>)
    ensures
        string_views(texts@) == registry_sync_faults(file_views(record_files@)),
{
    let ghost files = file_views(record_files@);
    let mut texts: Vec<String> = Vec::new();
    let mut i: usize = 0;
    proof {
        assert(files.subrange(0, 0) =~= Seq::<RecordFileView>::empty());
        assert(string_views(texts@) =~= Seq::<Seq<char>>::empty());
    }
    while i < record_files.len()
        invariant
            i <= record_files.len(),
            files == file_views(record_files@),
            string_views(texts@) == registry_sync_faults(files.subrange(0, i as int)),
        decreases record_files.len() - i,
    {
        let ghost next = files.subrange(0, i + 1);
        let ghost front = string_views(texts@);
        proof {
            assert(next.drop_last() == files.subrange(0, i as int));
            assert(next.last() == record_files@[i as int]@);
        }
        match ExtractedDomainInfo::try_from(&record_files[i]) {
            Ok(info) => {
                let ghost ns = name_server_views(info.name_servers@);
                let mut j: usize = 0;
                proof {
                    assert(ns.subrange(0, 0) =~= Seq::<NameServerView>::empty());
                    assert(front + sync_faults_of(ns.subrange(0, 0)) =~= front);
                }
                while j < info.name_servers.len()
                    invariant
                        j <= info.name_servers.len(),
                        ns == name_server_views(info.name_servers@),
                        string_views(texts@) == front + sync_faults_of(ns.subrange(0, j as int)),
                    decreases info.name_servers.len() - j,
                {
                    let ghost part = ns.subrange(0, j + 1);
                    let ghost so_far = string_views(texts@);
                    proof {
                        assert(part.drop_last() == ns.subrange(0, j as int));
                        assert(part.last() == info.name_servers@[j as int]@);
                    }
                    let name = &info.name_servers[j].name_server;
                    if is_registry_sync_domain(name) {
                        match extract_ip_from_registry_sync_domain(name) {
                            Ok(ip) => {},
                            Err(e) => {
                                texts.push(e);
                                proof {
                                    let t = registry_sync_fault_text(name@);
                                    assert(string_views(texts@) =~= so_far.push(t));
                                    assert(front + sync_faults_of(part) =~= so_far.push(t));
                                }
                            },
                        }
                    }
                    j += 1;
                }
                assert(ns.subrange(0, info.name_servers.len() as int) == ns);
            },
            Err(e) => {},
        }
        i += 1;
    }
    assert(files.subrange(0, record_files.len() as int) == files);
    texts
}


/// What a record is called in the message that it was not taken: an address record is glue.
pub open spec fn record_kind(d: RecordDataView) -> Seq<char> {
    if d is A || d is AAAA {
        "glue"@
    } else {
        type_mnemonic(d)
    }
}

/// The message that a zone did not take a record whose name lies outside it.
pub open spec fn rejection_text(r: RecordView, origin: Seq<char>) -> Seq<char> {
    "Failed to add "@ + record_kind(r.data) + " record to zone "@ + origin + ": "@
        + outside_message(r.name, origin)
}

/// The messages for those of the records that the zone of the given origin does not take,
/// record by record.
pub open spec fn rejections(records: Seq<RecordView>, origin: Seq<char>) -> Seq<Seq<char>>
    decreases records.len(),
{
    if records.len() == 0 {
        Seq::empty()
    } else {
        let front = rejections(records.drop_last(), origin);
        if within(records.last().name, origin) {
            front
        } else {
            front.push(rejection_text(records.last(), origin))
        }
    }
}

/// The messages for the records of the domains that their zones do not take, object by
/// object. Glue for a name server outside the zone of the domain is the usual case.
pub open spec fn forward_rejections(files: Seq<RecordFileView>) -> Seq<Seq<char>>
    decreases files.len(),
{
    if files.len() == 0 {
        Seq::empty()
    } else {
        let front = forward_rejections(files.drop_last());
        match extract_domain(files.last()) {
            Some(d) => front + rejections(domain_records(d), d.tld),
            None => front,
        }
    }
}

/// The message that the zone of the given origin did not take the record.
fn rejection_message(record: &DNSRecord, origin: &FQDNName) -> (msg: String)
    ensures
        msg@ == rejection_text(record@, origin@),
{
    let mut msg: Vec<char> = str_chars("Failed to add ");
    match &record.data {
        DNSRecordData::A(_) => {
            append_chars(&mut msg, &str_chars("glue"));
        },
        DNSRecordData::AAAA(_) => {
            append_chars(&mut msg, &str_chars("glue"));
        },
        _ => {
            append_chars(&mut msg, &str_chars(record.data.type_str()));
        },
    }
    append_chars(&mut msg, &str_chars(" record to zone "));
    append_chars(&mut msg, &origin.chars());
    append_chars(&mut msg, &str_chars(": "));
    append_chars(&mut msg, &str_chars("Record name '"));
    append_chars(&mut msg, &record.name.chars());
    append_chars(&mut msg, &str_chars("' is not within the zone origin '"));
    append_chars(&mut msg, &origin.chars());
    append_chars(&mut msg, &str_chars("'"));
    assert(msg@ =~= rejection_text(record@, origin@));
    string_from_chars(&msg)
}

/// The messages for the records of the domains that their zones do not take: one for each
/// of them, in order.
pub fn forward_rejection_texts(record_files: &[RecordFile]) -> (texts: Vec<String>)
    ensures
        string_views(texts@) == forward_rejections(file_views(record_files@)),
{
    let ghost files = file_views(record_files@);
    let mut texts: Vec<String> = Vec::new();
    let mut i: usize = 0;
    proof {
        assert(files.subrange(0, 0) =~= Seq::<RecordFileView>::empty());
        assert(string_views(texts@) =~= Seq::<Seq<char>>::empty());
    }
    while i < record_files.len()
        invariant
            i <= record_files.len(),
            files == file_views(record_files@),
            string_views(texts@) == forward_rejections(files.subrange(0, i as int)),
        decreases record_files.len() - i,
    {
        let ghost next = files.subrange(0, i + 1);
        let ghost front = string_views(texts@);
        proof {
            assert(next.drop_last() == files.subrange(0, i as int));
            assert(next.last() == record_files@[i as int]@);
        }
        match ExtractedDomainInfo::try_from(&record_files[i]) {
            Ok(info) => {
                let origin = info.domain.tld_name();
                let records = domain_records_for(&info);
                let ghost offered = record_views(records@);
                let mut j: usize = 0;
                proof {
                    assert(offered.subrange(0, 0) =~= Seq::<RecordView>::empty());
                    assert(front + rejections(offered.subrange(0, 0), origin@) =~= front);
                }
                while j < records.len()
                    invariant
                        j <= records.len(),
                        offered == record_views(records@),
                        string_views(texts@) == front + rejections(
                            offered.subrange(0, j as int),
                            origin@,
                        ),
                    decreases records.len() - j,
                {
                    let ghost part = offered.subrange(0, j + 1);
                    let ghost so_far = string_views(texts@);
                    proof {
                        assert(part.drop_last() == offered.subrange(0, j as int));
                        assert(part.last() == records@[j as int]@);
                    }
                    let record = &records[j];
                    if !record.name.is_child_of(&origin) && !record.name.equals(&origin) {
                        texts.push(rejection_message(record, &origin));
                        proof {
                            let t = rejection_text(record@, origin@);
                            assert(string_views(texts@) =~= so_far.push(t));
                            assert(front + rejections(part, origin@) =~= so_far.push(t));
                        }
                    }
                    j += 1;
                }
                assert(offered.subrange(0, records.len() as int) == offered);
            },
            Err(e) => {},
        }
        i += 1;
    }
    assert(files.subrange(0, record_files.len() as int) == files);
    texts
}

} // verus!
